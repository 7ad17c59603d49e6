use vstd::prelude::*;

verus! {

/// What a single tile of the grid holds.
#[derive(PartialEq, Eq, Structural, Hash, Copy, Clone, Debug)]
pub enum TileType {
    Wall,
    Floor,
    VisitedFloor,
    DownStairs,
    Debug(char),
}

/// A tile coordinate.
#[derive(PartialEq, Eq, Structural, Hash, Copy, Clone, Debug)]
pub struct Position {
    pub x: i32,
    pub y: i32,
}

/// The width of a level, in tiles.
pub const MAP_WIDTH: usize = 80;

/// The height of a level, in tiles.
pub const MAP_HEIGHT: usize = 43;

/// The number of tiles of a level.
pub const MAP_COUNT: usize = 3440;

/// Largest number of tiles a well-formed map may hold, so that every tile
/// index and every sum of two of them fits a 32-bit signed integer.
pub const MAP_TILE_LIMIT: i32 = 0x0fff_ffff;

/// The tile grid of one level together with its derived masks.
///
/// The tile at column `x` and row `y` is stored at index `y * width + x`.
#[derive(Debug)]
pub struct TileMap {
    pub tiles: Vec<TileType>,
    pub width: i32,
    pub height: i32,
    pub revealed_tiles: Vec<bool>,
    pub visible_tiles: Vec<bool>,
    pub blocked: Vec<bool>,
    pub depth: i32,
    /// Indices of the tiles that carry a stain; each index occurs at most once.
    pub bloodstains: Vec<usize>,
    /// For each tile, the identifiers of the entities that stand on it.
    pub tile_content: Vec<Vec<u32>>,
}

/// The mathematical content of a [`TileMap`].
#[verifier::ext_equal]
pub struct TileMapView {
    pub tiles: Seq<TileType>,
    pub width: int,
    pub height: int,
    pub revealed_tiles: Seq<bool>,
    pub visible_tiles: Seq<bool>,
    pub blocked: Seq<bool>,
    pub depth: int,
    pub bloodstains: Seq<usize>,
    pub tile_content: Seq<Seq<u32>>,
}

impl TileMapView {
    /// All parallel buffers have one entry per tile.
    pub open spec fn wf(self) -> bool {
        &&& 0 < self.width
        &&& 0 < self.height
        &&& self.width * self.height <= MAP_TILE_LIMIT
        &&& self.tiles.len() == self.width * self.height
        &&& self.revealed_tiles.len() == self.width * self.height
        &&& self.visible_tiles.len() == self.width * self.height
        &&& self.blocked.len() == self.width * self.height
        &&& self.tile_content.len() == self.width * self.height
    }

    /// Whether `(x, y)` names a tile of the grid.
    pub open spec fn in_bounds(self, x: int, y: int) -> bool {
        0 <= x < self.width && 0 <= y < self.height
    }

    /// The index at which the tile `(x, y)` is stored.
    pub open spec fn idx(self, x: int, y: int) -> int {
        y * self.width + x
    }

    /// The tile at `(x, y)`.
    pub open spec fn at(self, x: int, y: int) -> TileType {
        self.tiles[self.idx(x, y)]
    }

    /// Whether a walker may step onto `(x, y)`: the tile lies off the first
    /// row and column and is not marked as blocked.
    pub open spec fn exit_valid(self, x: int, y: int) -> bool {
        &&& 1 <= x <= self.width - 1
        &&& 1 <= y <= self.height - 1
        &&& !self.blocked[self.idx(x, y)]
    }

    /// The number of tiles equal to `t`.
    pub open spec fn count(self, t: TileType) -> nat {
        count_tiles(self.tiles, t)
    }

    /// The same map with other tiles.
    pub open spec fn with_tiles(self, tiles: Seq<TileType>) -> TileMapView {
        TileMapView { tiles: tiles, ..self }
    }

    /// The same map with the tile at index `i` replaced by `t`.
    pub open spec fn with_tile(self, i: int, t: TileType) -> TileMapView {
        TileMapView { tiles: self.tiles.update(i, t), ..self }
    }

    /// The same map with exactly its wall tiles marked as blocked.
    pub open spec fn with_walls_blocked(self) -> TileMapView {
        TileMapView {
            blocked: Seq::new(self.tiles.len(), |i: int| self.tiles[i] == TileType::Wall),
            ..self
        }
    }
}

/// The map that a builder starts from: `MAP_WIDTH` by `MAP_HEIGHT` walls at
/// the given depth, with nothing revealed, visible, blocked or stained and
/// nobody on any tile.
pub open spec fn fresh_map(depth: int) -> TileMapView {
    TileMapView {
        tiles: Seq::new(MAP_COUNT as nat, |i: int| TileType::Wall),
        width: MAP_WIDTH as int,
        height: MAP_HEIGHT as int,
        revealed_tiles: Seq::new(MAP_COUNT as nat, |i: int| false),
        visible_tiles: Seq::new(MAP_COUNT as nat, |i: int| false),
        blocked: Seq::new(MAP_COUNT as nat, |i: int| false),
        depth: depth,
        bloodstains: Seq::empty(),
        tile_content: Seq::new(MAP_COUNT as nat, |i: int| Seq::<u32>::empty()),
    }
}

/// How many entries of `tiles` equal `t`.
pub open spec fn count_tiles(tiles: Seq<TileType>, t: TileType) -> nat
    decreases tiles.len(),
{
    if tiles.len() == 0 {
        0
    } else {
        count_tiles(tiles.drop_last(), t) + if tiles.last() == t {
            1nat
        } else {
            0nat
        }
    }
}

/// The view of a vector of vectors: the sequence of the inner views.
pub open spec fn nested_view(v: Seq<Vec<u32>>) -> Seq<Seq<u32>> {
    Seq::new(v.len(), |i: int| v[i]@)
}

impl View for TileMap {
    type V = TileMapView;

    open spec fn view(&self) -> TileMapView {
        TileMapView {
            tiles: self.tiles@,
            width: self.width as int,
            height: self.height as int,
            revealed_tiles: self.revealed_tiles@,
            visible_tiles: self.visible_tiles@,
            blocked: self.blocked@,
            depth: self.depth as int,
            bloodstains: self.bloodstains@,
            tile_content: nested_view(self.tile_content@),
        }
    }
}

/// In a grid of `w` columns and `h` rows every in-bounds coordinate has an
/// index below `w * h`, and distinct coordinates have distinct indices.
pub proof fn lemma_idx_in_range(w: int, h: int, x: int, y: int)
    requires
        0 <= x < w,
        0 <= y < h,
    ensures
        0 <= y * w + x < w * h,
        (y * w + x) % w == x,
        (y * w + x) / w == y,
{
    assert(y * w + x < w * h) by (nonlinear_arith)
        requires
            0 <= x < w,
            0 <= y < h,
    ;
    assert(0 <= y * w) by (nonlinear_arith)
        requires
            0 <= y,
            0 < w,
    ;
    vstd::arithmetic::div_mod::lemma_fundamental_div_mod_converse(y * w + x, w, y, x);
}

/// Every index below `w * h` is the index of exactly one in-bounds coordinate.
pub proof fn lemma_idx_to_coords(w: int, h: int, i: int)
    requires
        0 < w,
        0 <= i < w * h,
    ensures
        0 <= i % w < w,
        0 <= i / w < h,
        (i / w) * w + i % w == i,
{
    vstd::arithmetic::div_mod::lemma_fundamental_div_mod(i, w);
    vstd::arithmetic::div_mod::lemma_mod_bound(i, w);
    assert(w * (i / w) == (i / w) * w) by (nonlinear_arith);
    assert(0 <= i / w) by (nonlinear_arith)
        requires
            0 < w,
            0 <= i,
    ;
    assert(i / w < h) by (nonlinear_arith)
        requires
            0 < w,
            0 <= i < w * h,
            (i / w) * w + i % w == i,
            0 <= i % w < w,
    ;
}

/// Replacing one tile changes the number of tiles of a kind by at most one:
/// one fewer if the old tile was of that kind, one more if the new one is.
pub proof fn lemma_count_update(tiles: Seq<TileType>, i: int, t: TileType, kind: TileType)
    requires
        0 <= i < tiles.len(),
    ensures
        count_tiles(tiles.update(i, t), kind) + (if tiles[i] == kind {
            1nat
        } else {
            0nat
        }) == count_tiles(tiles, kind) + (if t == kind {
            1nat
        } else {
            0nat
        }),
    decreases tiles.len(),
{
    let e = tiles.update(i, t);
    if i == tiles.len() - 1 {
        assert(e.drop_last() =~= tiles.drop_last());
    } else {
        lemma_count_update(tiles.drop_last(), i, t, kind);
        assert(e.drop_last() =~= tiles.drop_last().update(i, t));
    }
}

/// No more tiles are of a kind than there are tiles.
pub proof fn lemma_count_bound(tiles: Seq<TileType>, kind: TileType)
    ensures
        count_tiles(tiles, kind) <= tiles.len(),
    decreases tiles.len(),
{
    if tiles.len() > 0 {
        lemma_count_bound(tiles.drop_last(), kind);
    }
}

/// Where no tile is of a kind, the number of tiles of that kind is zero.
pub proof fn lemma_count_none(tiles: Seq<TileType>, kind: TileType)
    requires
        forall|i: int| 0 <= i < tiles.len() ==> tiles[i] != kind,
    ensures
        count_tiles(tiles, kind) == 0,
    decreases tiles.len(),
{
    if tiles.len() > 0 {
        lemma_count_none(tiles.drop_last(), kind);
    }
}

/// A copy of `v`.
pub fn copy_tiles(v: &Vec<TileType>) -> (r: Vec<TileType>)
    ensures
        r@ == v@,
{
    let mut r: Vec<TileType> = Vec::new();
    let mut i: usize = 0;
    while i < v.len()
        invariant
            i <= v.len(),
            r@ == v@.subrange(0, i as int),
        decreases v.len() - i,
    {
        r.push(v[i]);
        i += 1;
    }
    r
}

/// A copy of `v`.
pub fn copy_flags(v: &Vec<bool>) -> (r: Vec<bool>)
    ensures
        r@ == v@,
{
    let mut r: Vec<bool> = Vec::new();
    let mut i: usize = 0;
    while i < v.len()
        invariant
            i <= v.len(),
            r@ == v@.subrange(0, i as int),
        decreases v.len() - i,
    {
        r.push(v[i]);
        i += 1;
    }
    r
}

/// A copy of `v`.
pub fn copy_indices(v: &Vec<usize>) -> (r: Vec<usize>)
    ensures
        r@ == v@,
{
    let mut r: Vec<usize> = Vec::new();
    let mut i: usize = 0;
    while i < v.len()
        invariant
            i <= v.len(),
            r@ == v@.subrange(0, i as int),
        decreases v.len() - i,
    {
        r.push(v[i]);
        i += 1;
    }
    r
}

/// A copy of `v`.
pub fn copy_ids(v: &Vec<u32>) -> (r: Vec<u32>)
    ensures
        r@ == v@,
{
    let mut r: Vec<u32> = Vec::new();
    let mut i: usize = 0;
    while i < v.len()
        invariant
            i <= v.len(),
            r@ == v@.subrange(0, i as int),
        decreases v.len() - i,
    {
        r.push(v[i]);
        i += 1;
    }
    r
}

/// A copy of the per-tile occupant lists.
pub fn copy_content(v: &Vec<Vec<u32>>) -> (r: Vec<Vec<u32>>)
    ensures
        nested_view(r@) == nested_view(v@),
{
    let mut r: Vec<Vec<u32>> = Vec::new();
    let mut i: usize = 0;
    while i < v.len()
        invariant
            i <= v.len(),
            r.len() == i,
            forall|k: int| 0 <= k < i ==> (#[trigger] r[k])@ == v[k]@,
        decreases v.len() - i,
    {
        let inner = copy_ids(&v[i]);
        r.push(inner);
        i += 1;
    }
    assert(nested_view(r@) =~= nested_view(v@));
    r
}

/// `n` tiles, all equal to `t`.
pub fn filled_tiles(t: TileType, n: usize) -> (r: Vec<TileType>)
    ensures
        r.len() == n,
        forall|i: int| 0 <= i < n ==> r[i] == t,
{
    let mut r: Vec<TileType> = Vec::new();
    let mut i: usize = 0;
    while i < n
        invariant
            i <= n,
            r.len() == i,
            forall|k: int| 0 <= k < i ==> r[k] == t,
        decreases n - i,
    {
        r.push(t);
        i += 1;
    }
    r
}

/// `n` flags, all equal to `b`.
pub fn filled_flags(b: bool, n: usize) -> (r: Vec<bool>)
    ensures
        r.len() == n,
        forall|i: int| 0 <= i < n ==> r[i] == b,
{
    let mut r: Vec<bool> = Vec::new();
    let mut i: usize = 0;
    while i < n
        invariant
            i <= n,
            r.len() == i,
            forall|k: int| 0 <= k < i ==> r[k] == b,
        decreases n - i,
    {
        r.push(b);
        i += 1;
    }
    r
}

impl Clone for TileMap {
    /// An independent copy with the same content.
    fn clone(&self) -> (r: Self)
        ensures
            r@ == self@,
    {
        TileMap {
            tiles: copy_tiles(&self.tiles),
            width: self.width,
            height: self.height,
            revealed_tiles: copy_flags(&self.revealed_tiles),
            visible_tiles: copy_flags(&self.visible_tiles),
            blocked: copy_flags(&self.blocked),
            depth: self.depth,
            bloodstains: copy_indices(&self.bloodstains),
            tile_content: copy_content(&self.tile_content),
        }
    }
}

impl TileMap {
    /// Well-formedness: the buffers agree with the dimensions.
    pub open spec fn wf(&self) -> bool {
        self@.wf()
    }

    /// A map of `MAP_WIDTH` by `MAP_HEIGHT` wall tiles at the given depth,
    /// with nothing revealed, visible, blocked or stained.
    pub fn new(new_depth: i32) -> (m: TileMap)
        ensures
            m@ == fresh_map(new_depth as int),
            m.wf(),
            m.width == MAP_WIDTH,
            m.height == MAP_HEIGHT,
            m.depth == new_depth,
            m.tiles.len() == MAP_COUNT,
            forall|i: int| 0 <= i < MAP_COUNT ==> m.tiles[i] == TileType::Wall,
            forall|i: int| 0 <= i < MAP_COUNT ==> !m.revealed_tiles[i],
            forall|i: int| 0 <= i < MAP_COUNT ==> !m.visible_tiles[i],
            forall|i: int| 0 <= i < MAP_COUNT ==> !m.blocked[i],
            forall|i: int| 0 <= i < MAP_COUNT ==> (#[trigger] m.tile_content[i]).len() == 0,
            m.bloodstains.len() == 0,
    {
        let mut content: Vec<Vec<u32>> = Vec::new();
        let mut i: usize = 0;
        while i < MAP_COUNT
            invariant
                i <= MAP_COUNT,
                content.len() == i,
                forall|k: int| 0 <= k < i ==> (#[trigger] content[k]).len() == 0,
            decreases MAP_COUNT - i,
        {
            content.push(Vec::new());
            i += 1;
        }
        let m = TileMap {
            tiles: filled_tiles(TileType::Wall, MAP_COUNT),
            width: MAP_WIDTH as i32,
            height: MAP_HEIGHT as i32,
            revealed_tiles: filled_flags(false, MAP_COUNT),
            visible_tiles: filled_flags(false, MAP_COUNT),
            blocked: filled_flags(false, MAP_COUNT),
            tile_content: content,
            depth: new_depth,
            bloodstains: Vec::new(),
        };
        assert(m@.width * m@.height == 3440) by (nonlinear_arith)
            requires
                m@.width == 80,
                m@.height == 43,
        ;
        assert(m.tiles@ =~= fresh_map(new_depth as int).tiles);
        assert(m.revealed_tiles@ =~= fresh_map(new_depth as int).revealed_tiles);
        assert(m.visible_tiles@ =~= fresh_map(new_depth as int).visible_tiles);
        assert(m.blocked@ =~= fresh_map(new_depth as int).blocked);
        assert(m.bloodstains@ =~= fresh_map(new_depth as int).bloodstains);
        assert forall|i: int| 0 <= i < MAP_COUNT implies #[trigger] m@.tile_content[i]
            == Seq::<u32>::empty() by {
            assert(m.tile_content[i].len() == 0);
            assert(m.tile_content[i]@ =~= Seq::<u32>::empty());
        }
        assert(m@.tile_content =~= fresh_map(new_depth as int).tile_content);
        m
    }

    /// The index of the tile at column `x`, row `y`.
    pub fn xy_idx(&self, x: i32, y: i32) -> (idx: usize)
        requires
            self.wf(),
            self@.in_bounds(x as int, y as int),
        ensures
            idx == self@.idx(x as int, y as int),
            idx < self.tiles.len(),
    {
        proof {
            lemma_idx_in_range(self.width as int, self.height as int, x as int, y as int);
        }
        (y as usize * self.width as usize) + x as usize
    }

    /// Whether a walker may step onto `(x, y)`.
    pub fn is_exit_valid(&self, x: i32, y: i32) -> (b: bool)
        requires
            self.wf(),
        ensures
            b == self@.exit_valid(x as int, y as int),
    {
        if x < 1 || x > (self.width - 1) || y < 1 || y > (self.height - 1) {
            return false;
        }
        let idx = self.xy_idx(x, y);
        !self.blocked[idx]
    }

    /// Marks exactly the wall tiles as blocked.
    pub fn populate_blocked(&mut self)
        requires
            old(self).wf(),
        ensures
            final(self).wf(),
            final(self)@ == old(self)@.with_walls_blocked(),
    {
        let n = self.tiles.len();
        let mut i: usize = 0;
        while i < n
            invariant
                i <= n,
                n == self.tiles.len(),
                self.wf(),
                self@ == (TileMapView { blocked: self.blocked@, ..old(self)@ }),
                forall|k: int| 0 <= k < i ==> self.blocked[k] == (self.tiles[k] == TileType::Wall),
            decreases n - i,
        {
            let wall = self.tiles[i] == TileType::Wall;
            self.blocked[i] = wall;
            i += 1;
        }
        assert(self.blocked@ =~= Seq::new(
            old(self).tiles@.len(),
            |i: int| old(self).tiles[i] == TileType::Wall,
        ));
    }

    /// Empties the occupant list of every tile.
    pub fn clear_content_index(&mut self)
        requires
            old(self).wf(),
        ensures
            final(self).wf(),
            final(self)@ == (TileMapView {
                tile_content: Seq::new(old(self).tile_content@.len(), |i: int| Seq::<u32>::empty()),
                ..old(self)@
            }),
    {
        let n = self.tile_content.len();
        let mut i: usize = 0;
        while i < n
            invariant
                i <= n,
                n == self.tile_content.len(),
                n == old(self).tile_content.len(),
                self.tiles == old(self).tiles,
                self.width == old(self).width,
                self.height == old(self).height,
                self.revealed_tiles == old(self).revealed_tiles,
                self.visible_tiles == old(self).visible_tiles,
                self.blocked == old(self).blocked,
                self.depth == old(self).depth,
                self.bloodstains == old(self).bloodstains,
                forall|k: int| 0 <= k < i ==> (#[trigger] self.tile_content[k])@ == Seq::<u32>::empty(),
            decreases n - i,
        {
            self.tile_content[i].clear();
            i += 1;
        }
        assert(nested_view(self.tile_content@) =~= Seq::new(
            old(self).tile_content@.len(),
            |i: int| Seq::<u32>::empty(),
        ));
    }
}

/// One if the tile at `(x, y)` is a wall that has been revealed, zero
/// otherwise.
pub open spec fn revealed_wall(m: TileMapView, x: int, y: int) -> int {
    if m.tiles[m.idx(x, y)] == TileType::Wall && m.revealed_tiles[m.idx(x, y)] {
        1
    } else {
        0
    }
}

/// The mask of the revealed walls around `(x, y)`: one for the tile above,
/// two for the tile below, four for the tile to the left and eight for the
/// tile to the right.
pub open spec fn wall_mask(m: TileMapView, x: int, y: int) -> int {
    revealed_wall(m, x, y - 1) + 2 * revealed_wall(m, x, y + 1) + 4 * revealed_wall(m, x - 1, y) + 8
        * revealed_wall(m, x + 1, y)
}

/// The code-page-437 glyph of a wall with the given mask of walls around
/// it: a pillar, a bar, a corner, a tee or a cross of double lines.
pub open spec fn mask_glyph(mask: int) -> int {
    if mask == 0 {
        9
    } else if mask == 1 || mask == 2 || mask == 3 {
        186
    } else if mask == 4 || mask == 8 || mask == 12 {
        205
    } else if mask == 5 {
        188
    } else if mask == 6 {
        187
    } else if mask == 7 {
        185
    } else if mask == 9 {
        200
    } else if mask == 10 {
        201
    } else if mask == 11 {
        204
    } else if mask == 13 {
        202
    } else if mask == 14 {
        203
    } else if mask == 15 {
        206
    } else {
        35
    }
}

/// The glyph with which the wall at `(x, y)` is drawn: a hash on the border
/// of the map and off it, and elsewhere the glyph that joins it to the
/// revealed walls around it.
pub open spec fn spec_wall_glyph(m: TileMapView, x: int, y: int) -> int {
    if x < 1 || x > m.width - 2 || y < 1 || y > m.height - 2 {
        35
    } else {
        mask_glyph(wall_mask(m, x, y))
    }
}

/// The steps that a walker on the tile `(x, y)` may take in the first `k`
/// of the eight directions: for each the index of the tile it leads to and
/// its cost in hundredths, a hundred for a step along a row or column and a
/// hundred and forty-five for a diagonal one.
pub open spec fn exits_upto(m: TileMapView, x: int, y: int, k: int) -> Seq<(usize, u32)>
    decreases k,
{
    if k <= 0 {
        Seq::empty()
    } else {
        let rest = exits_upto(m, x, y, k - 1);
        let nx = x + crate::pathing::dir_dx(k - 1);
        let ny = y + crate::pathing::dir_dy(k - 1);
        if m.exit_valid(nx, ny) {
            rest.push((m.idx(nx, ny) as usize, crate::pathing::dir_cost(k - 1) as u32))
        } else {
            rest
        }
    }
}

impl TileMap {
    /// Whether the tile at `idx` blocks the view: whether it is a wall.
    pub fn is_opaque(&self, idx: usize) -> (opaque: bool)
        requires
            idx < self.tiles.len(),
        ensures
            opaque == (self.tiles[idx as int] == TileType::Wall),
    {
        self.tiles[idx] == TileType::Wall
    }

    /// The steps that a walker on the tile at `idx` may take: to the left,
    /// to the right, up, down, and to the four diagonal neighbours, each
    /// where the tile admits a step, with the index of the tile and the
    /// cost of the step in hundredths.
    pub fn get_available_exits(&self, idx: usize) -> (exits: Vec<(usize, u32)>)
        requires
            self.wf(),
            idx < self.tiles.len(),
        ensures
            exits@ == exits_upto(self@, idx as int % self@.width, idx as int / self@.width, 8),
    {
        proof {
            lemma_idx_to_coords(self@.width, self@.height, idx as int);
        }
        let x = (idx % (self.width as usize)) as i32;
        let y = (idx / (self.width as usize)) as i32;
        let mut exits: Vec<(usize, u32)> = Vec::new();
        let mut k: u8 = 0;
        while k < 8
            invariant
                self.wf(),
                self@.in_bounds(x as int, y as int),
                k <= 8,
                exits@ == exits_upto(self@, x as int, y as int, k as int),
            decreases 8 - k,
        {
            let nx = x + crate::pathing::direction_dx(k);
            let ny = y + crate::pathing::direction_dy(k);
            if self.is_exit_valid(nx, ny) {
                let cost = if k < 4 {
                    crate::pathing::STEP_COST
                } else {
                    crate::pathing::DIAGONAL_COST
                };
                exits.push((self.xy_idx(nx, ny), cost));
            }
            k += 1;
        }
        exits
    }

    /// Whether the tile at `(x, y)` is a wall that has been revealed.
    pub fn is_revealed_and_wall(&self, x: i32, y: i32) -> (yes: bool)
        requires
            self.wf(),
            self@.in_bounds(x as int, y as int),
        ensures
            yes == (revealed_wall(self@, x as int, y as int) == 1),
    {
        let idx = self.xy_idx(x, y);
        self.tiles[idx] == TileType::Wall && self.revealed_tiles[idx]
    }

    /// The glyph with which the wall at `(x, y)` is drawn.
    pub fn wall_glyph(&self, x: i32, y: i32) -> (glyph: u16)
        requires
            self.wf(),
        ensures
            glyph == spec_wall_glyph(self@, x as int, y as int),
    {
        if x < 1 || x > self.width - 2 || y < 1 || y > self.height - 2 {
            return 35;
        }
        let mut mask: u8 = 0;
        if self.is_revealed_and_wall(x, y - 1) {
            mask += 1;
        }
        if self.is_revealed_and_wall(x, y + 1) {
            mask += 2;
        }
        if self.is_revealed_and_wall(x - 1, y) {
            mask += 4;
        }
        if self.is_revealed_and_wall(x + 1, y) {
            mask += 8;
        }
        if mask == 0 {
            9
        } else if mask == 1 || mask == 2 || mask == 3 {
            186
        } else if mask == 4 || mask == 8 || mask == 12 {
            205
        } else if mask == 5 {
            188
        } else if mask == 6 {
            187
        } else if mask == 7 {
            185
        } else if mask == 9 {
            200
        } else if mask == 10 {
            201
        } else if mask == 11 {
            204
        } else if mask == 13 {
            202
        } else if mask == 14 {
            203
        } else {
            206
        }
    }
}

} // verus!
