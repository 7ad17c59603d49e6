use vstd::prelude::*;
use crate::map::{
    copy_tiles, lemma_idx_in_range, lemma_idx_to_coords, TileMap, TileMapView, TileType,
};
use crate::map_builders::common::only_walls_and_floors;

verus! {

/// Largest side a chunk may have, so that the number of its tiles fits.
pub const CHUNK_SIZE_LIMIT: i32 = 0x4000;

/// A chunk of the example map with what is needed to put chunks side by
/// side: for each of its four borders the exits, and the chunks that may
/// stand on that side of it.
///
/// The borders and sides are numbered north, south, west, east.
#[derive(Debug)]
pub struct MapChunk {
    pub pattern: Vec<TileType>,
    /// For each border, which of its tiles are floor.
    pub exits: [Vec<bool>; 4],
    /// Whether any border has an exit.
    pub has_exits: bool,
    /// For each side, the indices of the chunks that may stand there.
    pub compatible_with: [Vec<usize>; 4],
}

/// The mathematical content of a [`MapChunk`].
#[verifier::ext_equal]
pub struct MapChunkView {
    pub pattern: Seq<TileType>,
    pub exits: Seq<Seq<bool>>,
    pub has_exits: bool,
    pub compatible_with: Seq<Seq<usize>>,
}

impl View for MapChunk {
    type V = MapChunkView;

    open spec fn view(&self) -> MapChunkView {
        MapChunkView {
            pattern: self.pattern@,
            exits: Seq::new(4, |d: int| self.exits[d]@),
            has_exits: self.has_exits,
            compatible_with: Seq::new(4, |d: int| self.compatible_with[d]@),
        }
    }
}

/// The views of a list of chunks.
pub open spec fn chunk_views(chunks: Seq<MapChunk>) -> Seq<MapChunkView> {
    Seq::new(chunks.len(), |i: int| chunks[i]@)
}

/// The views of a list of patterns.
pub open spec fn pattern_views(patterns: Seq<Vec<TileType>>) -> Seq<Seq<TileType>> {
    Seq::new(patterns.len(), |i: int| patterns[i]@)
}

/// The index within a chunk of side `chunk_size` of its tile `(x, y)`.
pub open spec fn spec_tile_idx_in_chunk(x: int, y: int, chunk_size: int) -> int {
    y * chunk_size + x
}

/// The index within a chunk of the `k`-th tile of its border `d`.
pub open spec fn border_tile(chunk_size: int, d: int, k: int) -> int {
    if d == 0 {
        spec_tile_idx_in_chunk(k, 0, chunk_size)
    } else if d == 1 {
        spec_tile_idx_in_chunk(k, chunk_size - 1, chunk_size)
    } else if d == 2 {
        spec_tile_idx_in_chunk(0, k, chunk_size)
    } else {
        spec_tile_idx_in_chunk(chunk_size - 1, k, chunk_size)
    }
}

/// The exits of the border `d` of a pattern: which of its tiles are floor.
pub open spec fn border_exits(pattern: Seq<TileType>, chunk_size: int, d: int) -> Seq<bool> {
    Seq::new(
        chunk_size as nat,
        |k: int| pattern[border_tile(chunk_size, d, k)] == TileType::Floor,
    )
}

/// Whether any of the first `k` flags is set.
pub open spec fn any_of(flags: Seq<bool>, k: int) -> bool {
    exists|j: int| 0 <= j < k && j < flags.len() && #[trigger] flags[j]
}

/// Whether any flag is set.
pub open spec fn any(flags: Seq<bool>) -> bool {
    any_of(flags, flags.len() as int)
}

/// The side opposite to `d`.
pub open spec fn opposite(d: int) -> int {
    if d == 0 {
        1
    } else if d == 1 {
        0
    } else if d == 2 {
        3
    } else {
        2
    }
}

/// Whether some exit among the first `k` of `mine` faces an exit of
/// `theirs`.
pub open spec fn exits_meet_upto(mine: Seq<bool>, theirs: Seq<bool>, k: int) -> bool {
    exists|j: int| 0 <= j < k && j < mine.len() && #[trigger] mine[j] && theirs[j]
}

/// Whether some exit of `mine` faces an exit of `theirs`.
pub open spec fn exits_meet(mine: Seq<bool>, theirs: Seq<bool>) -> bool {
    exits_meet_upto(mine, theirs, mine.len() as int)
}

/// Whether the chunk `b` may stand on the side `d` of the chunk `a`: one of
/// the two has no exit at all, or `a` has no exit on that side, or an exit
/// of `a` on that side faces an exit of `b` on the opposite side.
pub open spec fn compatible(a: MapChunkView, d: int, b: MapChunkView) -> bool {
    if !a.has_exits || !b.has_exits {
        true
    } else {
        exits_meet(a.exits[d], b.exits[opposite(d)]) || !any(a.exits[d])
    }
}

/// The indices below `upto`, in ascending order, of the chunks that may
/// stand on the side `d` of the chunk at index `i`.
pub open spec fn compatible_list(chunks: Seq<MapChunkView>, i: int, d: int, upto: int) -> Seq<usize>
    decreases upto,
{
    if upto <= 0 {
        Seq::empty()
    } else {
        let rest = compatible_list(chunks, i, d, upto - 1);
        if compatible(chunks[i], d, chunks[upto - 1]) {
            rest.push((upto - 1) as usize)
        } else {
            rest
        }
    }
}

/// The chunk is what its pattern makes of it: its exits are the floor tiles
/// of its borders, and it has exits if some border has one.
pub open spec fn chunk_of_pattern(c: MapChunkView, chunk_size: int) -> bool {
    &&& c.pattern.len() == chunk_size * chunk_size
    &&& c.exits.len() == 4
    &&& c.compatible_with.len() == 4
    &&& forall|d: int| 0 <= d < 4 ==> #[trigger] c.exits[d] == border_exits(c.pattern, chunk_size, d)
    &&& c.has_exits == (any(c.exits[0]) || any(c.exits[1]) || any(c.exits[2]) || any(c.exits[3]))
}

/// The chunks are the constraints that belong to `patterns`: one chunk for
/// each pattern, in order, each with its exits and with the lists of the
/// chunks that may stand on each of its sides.
pub open spec fn constraints_of(
    chunks: Seq<MapChunkView>,
    patterns: Seq<Seq<TileType>>,
    chunk_size: int,
) -> bool {
    &&& chunks.len() == patterns.len()
    &&& forall|i: int|
        0 <= i < chunks.len() ==> (#[trigger] chunks[i]).pattern == patterns[i] && chunk_of_pattern(
            chunks[i],
            chunk_size,
        )
    &&& forall|i: int, d: int|
        0 <= i < chunks.len() && 0 <= d < 4 ==> #[trigger] chunks[i].compatible_with[d]
            == compatible_list(chunks, i, d, chunks.len() as int)
}

/// The index within a chunk of side `chunk_size` of its tile `(x, y)`.
pub fn tile_idx_in_chunk(x: i32, y: i32, chunk_size: i32) -> (idx: usize)
    requires
        0 <= x < chunk_size,
        0 <= y < chunk_size,
        chunk_size <= CHUNK_SIZE_LIMIT,
    ensures
        idx == spec_tile_idx_in_chunk(x as int, y as int, chunk_size as int),
        idx < chunk_size * chunk_size,
{
    proof {
        lemma_idx_in_range(chunk_size as int, chunk_size as int, x as int, y as int);
        assert(chunk_size * chunk_size <= 0x4000 * 0x4000) by (nonlinear_arith)
            requires
                0 < chunk_size <= 0x4000,
        ;
    }
    (y * chunk_size + x) as usize
}

/// Whether any flag is set.
pub fn any_set(flags: &Vec<bool>) -> (found: bool)
    ensures
        found == any(flags@),
{
    let mut k: usize = 0;
    while k < flags.len()
        invariant
            k <= flags.len(),
            !any_of(flags@, k as int),
        decreases flags.len() - k,
    {
        if flags[k] {
            return true;
        }
        k += 1;
    }
    false
}

/// Whether some exit of `mine` faces an exit of `theirs`.
pub fn do_exits_meet(mine: &Vec<bool>, theirs: &Vec<bool>) -> (found: bool)
    requires
        mine.len() <= theirs.len(),
    ensures
        found == exits_meet(mine@, theirs@),
{
    let mut k: usize = 0;
    while k < mine.len()
        invariant
            k <= mine.len(),
            mine.len() <= theirs.len(),
            !exits_meet_upto(mine@, theirs@, k as int),
        decreases mine.len() - k,
    {
        if mine[k] && theirs[k] {
            return true;
        }
        k += 1;
    }
    false
}

/// The exits of the border `d` of a pattern of side `chunk_size`.
pub fn exits_of_border(pattern: &Vec<TileType>, chunk_size: i32, d: u8) -> (exits: Vec<bool>)
    requires
        0 < chunk_size <= CHUNK_SIZE_LIMIT,
        pattern.len() == chunk_size * chunk_size,
        d < 4,
    ensures
        exits@ == border_exits(pattern@, chunk_size as int, d as int),
{
    let mut exits: Vec<bool> = Vec::new();
    let mut k: i32 = 0;
    while k < chunk_size
        invariant
            0 <= k <= chunk_size,
            0 < chunk_size <= CHUNK_SIZE_LIMIT,
            pattern.len() == chunk_size * chunk_size,
            d < 4,
            exits.len() == k,
            forall|j: int|
                0 <= j < k ==> #[trigger] exits[j] == (pattern[border_tile(
                    chunk_size as int,
                    d as int,
                    j,
                )] == TileType::Floor),
        decreases chunk_size - k,
    {
        let tile_idx = if d == 0 {
            tile_idx_in_chunk(k, 0, chunk_size)
        } else if d == 1 {
            tile_idx_in_chunk(k, chunk_size - 1, chunk_size)
        } else if d == 2 {
            tile_idx_in_chunk(0, k, chunk_size)
        } else {
            tile_idx_in_chunk(chunk_size - 1, k, chunk_size)
        };
        exits.push(pattern[tile_idx] == TileType::Floor);
        k += 1;
    }
    assert(exits@ =~= border_exits(pattern@, chunk_size as int, d as int));
    exits
}

/// The side opposite to `d`.
pub fn opposite_side(d: usize) -> (o: usize)
    requires
        d < 4,
    ensures
        o == opposite(d as int),
        o < 4,
{
    if d == 0 {
        1
    } else if d == 1 {
        0
    } else if d == 2 {
        3
    } else {
        2
    }
}

/// Whether the chunk `b` may stand on the side `d` of the chunk `a`.
pub fn is_compatible(a: &MapChunk, d: usize, b: &MapChunk) -> (fits: bool)
    requires
        d < 4,
        a.exits[d as int].len() <= b.exits[opposite(d as int)].len(),
    ensures
        fits == compatible(a@, d as int, b@),
{
    if !a.has_exits || !b.has_exits {
        true
    } else {
        let o = opposite_side(d);
        let does_fit = do_exits_meet(&a.exits[d], &b.exits[o]);
        let has_exit_on_this_side = any_set(&a.exits[d]);
        does_fit || !has_exit_on_this_side
    }
}

impl Clone for MapChunk {
    /// An independent copy with the same content.
    fn clone(&self) -> (r: Self)
        ensures
            r@ == self@,
    {
        let r = MapChunk {
            pattern: copy_tiles(&self.pattern),
            exits: [
                crate::map::copy_flags(&self.exits[0]),
                crate::map::copy_flags(&self.exits[1]),
                crate::map::copy_flags(&self.exits[2]),
                crate::map::copy_flags(&self.exits[3]),
            ],
            has_exits: self.has_exits,
            compatible_with: [
                crate::map::copy_indices(&self.compatible_with[0]),
                crate::map::copy_indices(&self.compatible_with[1]),
                crate::map::copy_indices(&self.compatible_with[2]),
                crate::map::copy_indices(&self.compatible_with[3]),
            ],
        };
        assert(r@.exits =~= self@.exits);
        assert(r@.compatible_with =~= self@.compatible_with);
        r
    }
}

/// Builds the constraints that belong to `patterns`: one chunk for each
/// pattern, in order, each with its exits and with the lists of the chunks
/// that may stand on each of its sides.
pub fn patterns_to_constraints(patterns: Vec<Vec<TileType>>, chunk_size: i32) -> (constraints: Vec<
    MapChunk,
>)
    requires
        0 < chunk_size <= CHUNK_SIZE_LIMIT,
        forall|i: int|
            0 <= i < patterns.len() ==> (#[trigger] patterns[i]).len() == chunk_size * chunk_size,
    ensures
        constraints_of(chunk_views(constraints@), pattern_views(patterns@), chunk_size as int),
{
    let ghost pats = pattern_views(patterns@);
    let n = patterns.len();
    let mut constraints: Vec<MapChunk> = Vec::new();
    let mut i: usize = 0;
    while i < n
        invariant
            0 < chunk_size <= CHUNK_SIZE_LIMIT,
            n == patterns.len(),
            pats == pattern_views(patterns@),
            forall|j: int|
                0 <= j < patterns.len() ==> (#[trigger] patterns[j]).len() == chunk_size
                    * chunk_size,
            i <= n,
            constraints.len() == i,
            forall|j: int|
                0 <= j < i ==> (#[trigger] constraints[j])@.pattern == pats[j] && chunk_of_pattern(
                    constraints[j]@,
                    chunk_size as int,
                ),
        decreases n - i,
    {
        let pattern = copy_tiles(&patterns[i]);
        let north = exits_of_border(&pattern, chunk_size, 0);
        let south = exits_of_border(&pattern, chunk_size, 1);
        let west = exits_of_border(&pattern, chunk_size, 2);
        let east = exits_of_border(&pattern, chunk_size, 3);
        let has_exits = any_set(&north) || any_set(&south) || any_set(&west) || any_set(&east);
        let new_chunk = MapChunk {
            pattern,
            exits: [north, south, west, east],
            has_exits,
            compatible_with: [Vec::new(), Vec::new(), Vec::new(), Vec::new()],
        };
        assert(pats[i as int] == patterns[i as int]@);
        assert(chunk_of_pattern(new_chunk@, chunk_size as int));
        constraints.push(new_chunk);
        i += 1;
    }
    let ghost base = chunk_views(constraints@);
    let mut i: usize = 0;
    while i < n
        invariant
            0 < chunk_size <= CHUNK_SIZE_LIMIT,
            i <= n,
            constraints.len() == n,
            base.len() == n,
            pats.len() == n,
            forall|j: int|
                0 <= j < n ==> (#[trigger] constraints[j])@.pattern == pats[j] && chunk_of_pattern(
                    constraints[j]@,
                    chunk_size as int,
                ),
            forall|j: int|
                0 <= j < n ==> (#[trigger] constraints[j])@.exits == base[j].exits
                    && constraints[j]@.has_exits == base[j].has_exits,
            forall|j: int, d: int|
                0 <= j < i && 0 <= d < 4 ==> #[trigger] constraints[j]@.compatible_with[d]
                    == compatible_list(base, j, d, n as int),
        decreases n - i,
    {
        proof {
            assert forall|j: int, d: int| 0 <= j < n && 0 <= d < 4 implies (
            #[trigger] constraints[j].exits[d]).len() == chunk_size by {
                assert(chunk_of_pattern(constraints[j]@, chunk_size as int));
                assert(constraints[j]@.exits[d] == border_exits(
                    constraints[j]@.pattern,
                    chunk_size as int,
                    d,
                ));
                assert(constraints[j]@.exits[d] == constraints[j].exits[d]@);
            }
        }
        let l0 = compatible_chunks(&constraints, i, 0);
        let l1 = compatible_chunks(&constraints, i, 1);
        let l2 = compatible_chunks(&constraints, i, 2);
        let l3 = compatible_chunks(&constraints, i, 3);
        let ghost before = chunk_views(constraints@);
        proof {
            lemma_compatible_list_same(before, base, i as int, 0, n as int);
            lemma_compatible_list_same(before, base, i as int, 1, n as int);
            lemma_compatible_list_same(before, base, i as int, 2, n as int);
            lemma_compatible_list_same(before, base, i as int, 3, n as int);
        }
        let ghost old_chunks = constraints@;
        constraints[i].compatible_with = [l0, l1, l2, l3];
        proof {
            assert forall|j: int| 0 <= j < n implies (#[trigger] constraints[j])@.pattern == pats[j]
                && chunk_of_pattern(constraints[j]@, chunk_size as int) && constraints[j]@.exits
                == base[j].exits && constraints[j]@.has_exits == base[j].has_exits by {
                if j == i {
                    assert(constraints[j].pattern == old_chunks[j].pattern);
                    assert(constraints[j].exits == old_chunks[j].exits);
                    assert(constraints[j]@.exits =~= old_chunks[j]@.exits);
                } else {
                    assert(constraints[j] == old_chunks[j]);
                }
            }
            assert forall|j: int, d: int| 0 <= j < i + 1 && 0 <= d < 4 implies #[trigger] constraints[j]@.compatible_with[d]
                == compatible_list(base, j, d, n as int) by {
                if j < i {
                    assert(constraints[j] == old_chunks[j]);
                }
            }
        }
        i += 1;
    }
    proof {
        let done = chunk_views(constraints@);
        assert forall|j: int, d: int| 0 <= j < done.len() && 0 <= d < 4 implies #[trigger] done[j].compatible_with[d]
            == compatible_list(done, j, d, done.len() as int) by {
            lemma_compatible_list_same(done, base, j, d, n as int);
        }
        assert(constraints_of(done, pats, chunk_size as int));
    }
    constraints
}

/// Which chunks may stand on a side of a chunk depends on the exits of the
/// chunks alone.
pub proof fn lemma_compatible_list_same(
    a: Seq<MapChunkView>,
    b: Seq<MapChunkView>,
    i: int,
    d: int,
    upto: int,
)
    requires
        a.len() == b.len(),
        0 <= i < a.len(),
        upto <= a.len(),
        forall|j: int|
            0 <= j < a.len() ==> (#[trigger] a[j]).exits == b[j].exits && a[j].has_exits
                == b[j].has_exits,
    ensures
        compatible_list(a, i, d, upto) == compatible_list(b, i, d, upto),
    decreases upto,
{
    if upto > 0 {
        lemma_compatible_list_same(a, b, i, d, upto - 1);
        assert(a[upto - 1].exits == b[upto - 1].exits);
        assert(a[i].exits == b[i].exits);
    }
}

/// The patterns determine the constraints that belong to them.
pub proof fn lemma_constraints_unique(
    a: Seq<MapChunkView>,
    b: Seq<MapChunkView>,
    patterns: Seq<Seq<TileType>>,
    chunk_size: int,
)
    requires
        constraints_of(a, patterns, chunk_size),
        constraints_of(b, patterns, chunk_size),
    ensures
        a == b,
{
    assert forall|i: int| 0 <= i < a.len() implies (#[trigger] a[i]).exits == b[i].exits
        && a[i].has_exits == b[i].has_exits by {
        assert(chunk_of_pattern(a[i], chunk_size) && chunk_of_pattern(b[i], chunk_size));
        assert forall|d: int| 0 <= d < 4 implies a[i].exits[d] == b[i].exits[d] by {
            assert(a[i].exits[d] == border_exits(a[i].pattern, chunk_size, d));
            assert(b[i].exits[d] == border_exits(b[i].pattern, chunk_size, d));
        }
        assert(a[i].exits =~= b[i].exits);
    }
    assert forall|i: int| 0 <= i < a.len() implies a[i] == b[i] by {
        assert(chunk_of_pattern(a[i], chunk_size) && chunk_of_pattern(b[i], chunk_size));
        assert(a[i].exits == b[i].exits && a[i].has_exits == b[i].has_exits);
        assert forall|d: int| 0 <= d < 4 implies a[i].compatible_with[d]
            == b[i].compatible_with[d] by {
            lemma_compatible_list_same(a, b, i, d, a.len() as int);
            assert(a[i].compatible_with[d] == compatible_list(a, i, d, a.len() as int));
            assert(b[i].compatible_with[d] == compatible_list(b, i, d, b.len() as int));
        }
        assert(a[i].compatible_with =~= b[i].compatible_with);
    }
    assert(a =~= b);
}

/// The indices, in ascending order, of the chunks that may stand on the
/// side `d` of the chunk at index `i`.
pub fn compatible_chunks(chunks: &Vec<MapChunk>, i: usize, d: usize) -> (list: Vec<usize>)
    requires
        i < chunks.len(),
        d < 4,
        forall|j: int|
            0 <= j < chunks.len() ==> (#[trigger] chunks[j]).exits[opposite(d as int)].len()
                >= chunks[i as int].exits[d as int].len(),
    ensures
        list@ == compatible_list(chunk_views(chunks@), i as int, d as int, chunks.len() as int),
{
    let mut list: Vec<usize> = Vec::new();
    let mut j: usize = 0;
    while j < chunks.len()
        invariant
            i < chunks.len(),
            d < 4,
            j <= chunks.len(),
            forall|k: int|
                0 <= k < chunks.len() ==> (#[trigger] chunks[k]).exits[opposite(d as int)].len()
                    >= chunks[i as int].exits[d as int].len(),
            list@ == compatible_list(chunk_views(chunks@), i as int, d as int, j as int),
        decreases chunks.len() - j,
    {
        if is_compatible(&chunks[i], d, &chunks[j]) {
            list.push(j);
        }
        j += 1;
    }
    list
}

/// The column (or row) of the map from which the `t`-th column (or row) of
/// a pattern that starts at `s` is taken: counted from the far end of the
/// chunk where the pattern is flipped.
pub open spec fn source_coord(s: int, chunk_size: int, flip: bool, t: int) -> int {
    if flip {
        s + chunk_size - 1 - t
    } else {
        s + t
    }
}

/// The pattern that the chunk of the map with corner `(sx, sy)` gives, row
/// by row, flipped left to right and top to bottom as asked.
pub open spec fn chunk_pattern(
    m: TileMapView,
    chunk_size: int,
    sx: int,
    sy: int,
    flip_x: bool,
    flip_y: bool,
) -> Seq<TileType> {
    Seq::new(
        (chunk_size * chunk_size) as nat,
        |k: int|
            m.at(
                source_coord(sx, chunk_size, flip_x, k % chunk_size),
                source_coord(sy, chunk_size, flip_y, k / chunk_size),
            ),
    )
}

/// The patterns that one chunk gives: the chunk as it is and, where flipped
/// chunks are wanted, flipped left to right, top to bottom, and both.
pub open spec fn chunk_variants(
    m: TileMapView,
    chunk_size: int,
    flipped: bool,
    sx: int,
    sy: int,
) -> Seq<Seq<TileType>> {
    if flipped {
        seq![
            chunk_pattern(m, chunk_size, sx, sy, false, false),
            chunk_pattern(m, chunk_size, sx, sy, true, false),
            chunk_pattern(m, chunk_size, sx, sy, false, true),
            chunk_pattern(m, chunk_size, sx, sy, true, true),
        ]
    } else {
        seq![chunk_pattern(m, chunk_size, sx, sy, false, false)]
    }
}

/// The patterns of the first `upto` chunks of the column of chunks `cx`.
pub open spec fn column_patterns(
    m: TileMapView,
    chunk_size: int,
    flipped: bool,
    cx: int,
    upto: int,
) -> Seq<Seq<TileType>>
    decreases upto,
{
    if upto <= 0 {
        Seq::empty()
    } else {
        column_patterns(m, chunk_size, flipped, cx, upto - 1) + chunk_variants(
            m,
            chunk_size,
            flipped,
            cx * chunk_size,
            (upto - 1) * chunk_size,
        )
    }
}

/// The patterns of the first `upto` columns of chunks, each of `chunks_y`
/// chunks.
pub open spec fn grid_patterns(
    m: TileMapView,
    chunk_size: int,
    flipped: bool,
    upto: int,
    chunks_y: int,
) -> Seq<Seq<TileType>>
    decreases upto,
{
    if upto <= 0 {
        Seq::empty()
    } else {
        grid_patterns(m, chunk_size, flipped, upto - 1, chunks_y) + column_patterns(
            m,
            chunk_size,
            flipped,
            upto - 1,
            chunks_y,
        )
    }
}

/// All patterns of the map: those of its chunks, column by column.
pub open spec fn all_patterns(m: TileMapView, chunk_size: int, flipped: bool) -> Seq<Seq<TileType>> {
    grid_patterns(m, chunk_size, flipped, m.width / chunk_size, m.height / chunk_size)
}

/// The patterns without repetition: each pattern stands where it first
/// occurred.
pub open spec fn deduped(patterns: Seq<Seq<TileType>>) -> Seq<Seq<TileType>>
    decreases patterns.len(),
{
    if patterns.len() == 0 {
        Seq::empty()
    } else {
        let rest = deduped(patterns.drop_last());
        if rest.contains(patterns.last()) {
            rest
        } else {
            rest.push(patterns.last())
        }
    }
}

/// Every tile of every pattern is a wall or a floor.
pub open spec fn plain_patterns(patterns: Seq<Seq<TileType>>) -> bool {
    forall|i: int| 0 <= i < patterns.len() ==> only_walls_and_floors(#[trigger] patterns[i])
}

/// Whether two patterns hold the same tiles.
pub fn same_pattern(a: &Vec<TileType>, b: &Vec<TileType>) -> (same: bool)
    ensures
        same == (a@ == b@),
{
    if a.len() != b.len() {
        return false;
    }
    let mut k: usize = 0;
    while k < a.len()
        invariant
            k <= a.len(),
            a.len() == b.len(),
            forall|j: int| 0 <= j < k ==> a[j] == b[j],
        decreases a.len() - k,
    {
        if a[k] != b[k] {
            return false;
        }
        k += 1;
    }
    assert(a@ =~= b@);
    true
}

/// Whether `pattern` is one of `list`.
pub fn contains_pattern(list: &Vec<Vec<TileType>>, pattern: &Vec<TileType>) -> (found: bool)
    ensures
        found == pattern_views(list@).contains(pattern@),
{
    let mut k: usize = 0;
    while k < list.len()
        invariant
            k <= list.len(),
            forall|j: int| 0 <= j < k ==> pattern_views(list@)[j] != pattern@,
        decreases list.len() - k,
    {
        if same_pattern(&list[k], pattern) {
            assert(pattern_views(list@)[k as int] == pattern@);
            return true;
        }
        k += 1;
    }
    false
}

/// The patterns without repetition: each pattern stands where it first
/// occurred.
pub fn dedup_patterns(patterns: &Vec<Vec<TileType>>) -> (unique: Vec<Vec<TileType>>)
    ensures
        pattern_views(unique@) == deduped(pattern_views(patterns@)),
        plain_patterns(pattern_views(patterns@)) ==> plain_patterns(pattern_views(unique@)),
        unique.len() <= patterns.len(),
{
    let mut unique: Vec<Vec<TileType>> = Vec::new();
    let mut i: usize = 0;
    assert(pattern_views(patterns@).take(0) =~= Seq::<Seq<TileType>>::empty());
    assert(pattern_views(unique@) =~= Seq::<Seq<TileType>>::empty());
    while i < patterns.len()
        invariant
            i <= patterns.len(),
            unique.len() <= i,
            pattern_views(unique@) == deduped(pattern_views(patterns@).take(i as int)),
            plain_patterns(pattern_views(patterns@)) ==> plain_patterns(pattern_views(unique@)),
        decreases patterns.len() - i,
    {
        let ghost before = pattern_views(unique@);
        let ghost all = pattern_views(patterns@);
        assert(all.take(i + 1).drop_last() =~= all.take(i as int));
        assert(all.take(i + 1).last() == patterns[i as int]@);
        if !contains_pattern(&unique, &patterns[i]) {
            unique.push(copy_tiles(&patterns[i]));
            assert(pattern_views(unique@) =~= before.push(patterns[i as int]@));
            proof {
                if plain_patterns(all) {
                    assert(only_walls_and_floors(all[i as int]));
                    assert forall|j: int| 0 <= j < unique.len() implies only_walls_and_floors(
                        #[trigger] pattern_views(unique@)[j],
                    ) by {
                        if j < before.len() {
                            assert(pattern_views(unique@)[j] == before[j]);
                        }
                    }
                }
            }
        }
        i += 1;
    }
    assert(pattern_views(patterns@).take(patterns.len() as int) =~= pattern_views(patterns@));
    unique
}

/// The pattern that the chunk of the map with corner `(sx, sy)` gives, row
/// by row, flipped left to right and top to bottom as asked.
pub fn extract_pattern(
    map: &TileMap,
    chunk_size: i32,
    sx: i32,
    sy: i32,
    flip_x: bool,
    flip_y: bool,
) -> (pattern: Vec<TileType>)
    requires
        map.wf(),
        0 < chunk_size <= CHUNK_SIZE_LIMIT,
        0 <= sx,
        0 <= sy,
        sx + chunk_size <= map.width,
        sy + chunk_size <= map.height,
    ensures
        pattern@ == chunk_pattern(map@, chunk_size as int, sx as int, sy as int, flip_x, flip_y),
        pattern.len() == chunk_size * chunk_size,
        only_walls_and_floors(map.tiles@) ==> only_walls_and_floors(pattern@),
{
    let ghost want = chunk_pattern(map@, chunk_size as int, sx as int, sy as int, flip_x, flip_y);
    let mut pattern: Vec<TileType> = Vec::new();
    let mut ty: i32 = 0;
    proof {
        assert(0 * (chunk_size as int) == 0) by (nonlinear_arith);
        assert(chunk_size * chunk_size <= 0x4000 * 0x4000) by (nonlinear_arith)
            requires
                0 < chunk_size <= 0x4000,
        ;
    }
    while ty < chunk_size
        invariant
            map.wf(),
            0 < chunk_size <= CHUNK_SIZE_LIMIT,
            0 <= sx,
            0 <= sy,
            sx + chunk_size <= map.width,
            sy + chunk_size <= map.height,
            0 <= ty <= chunk_size,
            want == chunk_pattern(map@, chunk_size as int, sx as int, sy as int, flip_x, flip_y),
            pattern.len() == ty * chunk_size,
            forall|k: int| 0 <= k < pattern.len() ==> pattern[k] == want[k],
            only_walls_and_floors(map.tiles@) ==> only_walls_and_floors(pattern@),
        decreases chunk_size - ty,
    {
        let mut tx: i32 = 0;
        while tx < chunk_size
            invariant
                map.wf(),
                0 < chunk_size <= CHUNK_SIZE_LIMIT,
                0 <= sx,
                0 <= sy,
                sx + chunk_size <= map.width,
                sy + chunk_size <= map.height,
                0 <= ty < chunk_size,
                0 <= tx <= chunk_size,
                want == chunk_pattern(
                    map@,
                    chunk_size as int,
                    sx as int,
                    sy as int,
                    flip_x,
                    flip_y,
                ),
                pattern.len() == ty * chunk_size + tx,
                forall|k: int| 0 <= k < pattern.len() ==> pattern[k] == want[k],
                only_walls_and_floors(map.tiles@) ==> only_walls_and_floors(pattern@),
            decreases chunk_size - tx,
        {
            let x = if flip_x {
                sx + chunk_size - 1 - tx
            } else {
                sx + tx
            };
            let y = if flip_y {
                sy + chunk_size - 1 - ty
            } else {
                sy + ty
            };
            let tile_idx = map.xy_idx(x, y);
            proof {
                lemma_idx_in_range(chunk_size as int, chunk_size as int, tx as int, ty as int);
            }
            let ghost before = pattern@;
            pattern.push(map.tiles[tile_idx]);
            proof {
                if only_walls_and_floors(map.tiles@) {
                    assert forall|k: int| 0 <= k < pattern.len() implies #[trigger] pattern[k]
                        == TileType::Wall || pattern[k] == TileType::Floor by {
                        if k < before.len() {
                            assert(before[k] == TileType::Wall || before[k] == TileType::Floor);
                        } else {
                            assert(map.tiles[tile_idx as int] == TileType::Wall
                                || map.tiles[tile_idx as int] == TileType::Floor);
                        }
                    }
                }
            }
            tx += 1;
        }
        proof {
            assert((ty + 1) * chunk_size == ty * chunk_size + chunk_size) by (nonlinear_arith);
        }
        ty += 1;
    }
    assert(pattern@ =~= want);
    pattern
}

/// Lists the patterns of the map: the chunks of side `chunk_size`, column
/// of chunks by column of chunks, each followed by its three flipped forms
/// where `include_flipped_chunks` is set, and without repetition where
/// `dedup` is set.
pub fn build_patterns(map: &TileMap, chunk_size: i32, include_flipped_chunks: bool, dedup: bool) -> (patterns:
    Vec<Vec<TileType>>)
    requires
        map.wf(),
        0 < chunk_size <= CHUNK_SIZE_LIMIT,
    ensures
        pattern_views(patterns@) == if dedup {
            deduped(all_patterns(map@, chunk_size as int, include_flipped_chunks))
        } else {
            all_patterns(map@, chunk_size as int, include_flipped_chunks)
        },
        forall|i: int|
            0 <= i < patterns.len() ==> (#[trigger] patterns[i]).len() == chunk_size * chunk_size,
        only_walls_and_floors(map.tiles@) ==> plain_patterns(pattern_views(patterns@)),
        patterns.len() <= 4 * ((map.width / chunk_size) * (map.height / chunk_size)),
{
    let chunks_on_x = map.width / chunk_size;
    let chunks_on_y = map.height / chunk_size;
    let ghost m = map@;
    let ghost cs = chunk_size as int;
    let ghost flipped = include_flipped_chunks;
    let mut patterns: Vec<Vec<TileType>> = Vec::new();
    let mut chunk_x: i32 = 0;
    proof {
        assert(0 <= m.height / cs) by (nonlinear_arith)
            requires
                0 < m.height,
                0 < cs,
        ;
        assert(pattern_views(patterns@) =~= grid_patterns(m, cs, flipped, 0, chunks_on_y as int));
        vstd::arithmetic::div_mod::lemma_fundamental_div_mod(m.width, cs);
        vstd::arithmetic::div_mod::lemma_fundamental_div_mod(m.height, cs);
        vstd::arithmetic::div_mod::lemma_mod_bound(m.width, cs);
        vstd::arithmetic::div_mod::lemma_mod_bound(m.height, cs);
    }
    while chunk_x < chunks_on_x
        invariant
            map.wf(),
            m == map@,
            cs == chunk_size as int,
            flipped == include_flipped_chunks,
            0 < chunk_size <= CHUNK_SIZE_LIMIT,
            chunks_on_x == m.width / cs,
            chunks_on_y == m.height / cs,
            cs * (m.width / cs) <= m.width,
            cs * (m.height / cs) <= m.height,
            0 <= chunk_x <= chunks_on_x,
            0 <= chunks_on_y,
            patterns.len() <= 4 * (chunk_x * chunks_on_y),
            pattern_views(patterns@) == grid_patterns(
                m,
                cs,
                flipped,
                chunk_x as int,
                chunks_on_y as int,
            ),
            forall|i: int| 0 <= i < patterns.len() ==> (#[trigger] patterns[i]).len() == cs * cs,
            only_walls_and_floors(map.tiles@) ==> plain_patterns(pattern_views(patterns@)),
        decreases chunks_on_x - chunk_x,
    {
        let ghost done = pattern_views(patterns@);
        let mut chunk_y: i32 = 0;
        proof {
            assert(done + column_patterns(m, cs, flipped, chunk_x as int, 0) =~= done);
        }
        while chunk_y < chunks_on_y
            invariant
                map.wf(),
                m == map@,
                cs == chunk_size as int,
                flipped == include_flipped_chunks,
                0 < chunk_size <= CHUNK_SIZE_LIMIT,
                chunks_on_x == m.width / cs,
                chunks_on_y == m.height / cs,
                cs * (m.width / cs) <= m.width,
                cs * (m.height / cs) <= m.height,
                0 <= chunk_x < chunks_on_x,
                0 <= chunk_y <= chunks_on_y,
                patterns.len() <= 4 * (chunk_x * chunks_on_y + chunk_y),
                done == grid_patterns(m, cs, flipped, chunk_x as int, chunks_on_y as int),
                pattern_views(patterns@) == done + column_patterns(
                    m,
                    cs,
                    flipped,
                    chunk_x as int,
                    chunk_y as int,
                ),
                forall|i: int| 0 <= i < patterns.len() ==> (#[trigger] patterns[i]).len() == cs * cs,
                only_walls_and_floors(map.tiles@) ==> plain_patterns(pattern_views(patterns@)),
            decreases chunks_on_y - chunk_y,
        {
            proof {
                assert(chunk_x * cs + cs <= m.width) by (nonlinear_arith)
                    requires
                        0 <= chunk_x < m.width / cs,
                        cs * (m.width / cs) <= m.width,
                        0 < cs,
                ;
                assert(chunk_y * cs + cs <= m.height) by (nonlinear_arith)
                    requires
                        0 <= chunk_y < m.height / cs,
                        cs * (m.height / cs) <= m.height,
                        0 < cs,
                ;
                assert(0 <= chunk_x * cs && 0 <= chunk_y * cs) by (nonlinear_arith)
                    requires
                        0 <= chunk_x,
                        0 <= chunk_y,
                        0 < cs,
                ;
            }
            let start_x = chunk_x * chunk_size;
            let start_y = chunk_y * chunk_size;
            let ghost before = pattern_views(patterns@);
            patterns.push(extract_pattern(map, chunk_size, start_x, start_y, false, false));
            if include_flipped_chunks {
                patterns.push(extract_pattern(map, chunk_size, start_x, start_y, true, false));
                patterns.push(extract_pattern(map, chunk_size, start_x, start_y, false, true));
                patterns.push(extract_pattern(map, chunk_size, start_x, start_y, true, true));
            }
            proof {
                if only_walls_and_floors(map.tiles@) {
                    assert forall|j: int| 0 <= j < patterns.len() implies only_walls_and_floors(
                        #[trigger] pattern_views(patterns@)[j],
                    ) by {
                        if j < before.len() {
                            assert(pattern_views(patterns@)[j] == before[j]);
                        }
                    }
                }
                assert(pattern_views(patterns@) =~= before + chunk_variants(
                    m,
                    cs,
                    flipped,
                    start_x as int,
                    start_y as int,
                ));
                assert(before + chunk_variants(m, cs, flipped, start_x as int, start_y as int)
                    =~= done + column_patterns(m, cs, flipped, chunk_x as int, chunk_y + 1));
            }
            chunk_y += 1;
        }
        proof {
            assert(chunk_x * chunks_on_y + chunks_on_y == (chunk_x + 1) * chunks_on_y)
                by (nonlinear_arith);
        }
        chunk_x += 1;
    }
    if dedup {
        let unique = dedup_patterns(&patterns);
        proof {
            lemma_deduped_members(pattern_views(patterns@));
            assert forall|i: int| 0 <= i < unique.len() implies (#[trigger] unique[i]).len() == cs
                * cs by {
                let v = pattern_views(unique@)[i];
                assert(pattern_views(unique@).contains(v));
                let j = choose|j: int|
                    0 <= j < patterns.len() && pattern_views(patterns@)[j] == v;
                assert(patterns[j].len() == cs * cs);
                assert(unique[i]@ == v);
            }
        }
        unique
    } else {
        patterns
    }
}

/// Every pattern that is left without repetition was among the patterns.
pub proof fn lemma_deduped_members(patterns: Seq<Seq<TileType>>)
    ensures
        forall|p: Seq<TileType>| #[trigger]
            deduped(patterns).contains(p) ==> exists|j: int|
                0 <= j < patterns.len() && patterns[j] == p,
        forall|j: int| 0 <= j < patterns.len() ==> deduped(patterns).contains(#[trigger] patterns[j]),
    decreases patterns.len(),
{
    if patterns.len() > 0 {
        let rest = patterns.drop_last();
        lemma_deduped_members(rest);
        let d = deduped(patterns);
        assert forall|p: Seq<TileType>| #[trigger] d.contains(p) implies exists|j: int|
            0 <= j < patterns.len() && patterns[j] == p by {
            if deduped(rest).contains(p) {
                let j = choose|j: int| 0 <= j < rest.len() && rest[j] == p;
                assert(patterns[j] == p);
            } else {
                let k = choose|k: int| 0 <= k < d.len() && d[k] == p;
                assert(p == patterns.last());
                assert(patterns[patterns.len() - 1] == p);
            }
        }
        assert forall|j: int| 0 <= j < patterns.len() implies d.contains(
            #[trigger] patterns[j],
        ) by {
            if j < patterns.len() - 1 {
                assert(rest[j] == patterns[j]);
                assert(deduped(rest).contains(rest[j]));
                let k = choose|k: int| 0 <= k < deduped(rest).len() && deduped(rest)[k] == rest[j];
                assert(d[k] == patterns[j]);
            } else {
                if deduped(rest).contains(patterns.last()) {
                } else {
                    assert(d[d.len() - 1] == patterns.last());
                }
            }
        }
    }
}

/// Whether the tile `(x, y)` lies in the chunk of side `chunk_size` with
/// corner `(sx, sy)` and the row-by-row scan of the chunk has passed it
/// when it stands at column `tx` of row `ty` of the chunk.
pub open spec fn chunk_scanned(
    chunk_size: int,
    sx: int,
    sy: int,
    tx: int,
    ty: int,
    x: int,
    y: int,
) -> bool {
    &&& sx <= x < sx + chunk_size
    &&& sy <= y < sy + chunk_size
    &&& (y - sy < ty || (y - sy == ty && x - sx < tx))
}

/// The tiles after a pattern has been written into the chunk with corner
/// `(sx, sy)`, up to column `tx` of row `ty` of the chunk.
pub open spec fn pattern_tiles_upto(
    m: TileMapView,
    pattern: Seq<TileType>,
    chunk_size: int,
    sx: int,
    sy: int,
    tx: int,
    ty: int,
) -> Seq<TileType> {
    Seq::new(
        m.tiles.len(),
        |i: int|
            if chunk_scanned(chunk_size, sx, sy, tx, ty, i % m.width, i / m.width) {
                pattern[spec_tile_idx_in_chunk(i % m.width - sx, i / m.width - sy, chunk_size)]
            } else {
                m.tiles[i]
            },
    )
}

/// The visibility flags after a pattern has been written into the chunk
/// with corner `(sx, sy)`, up to column `tx` of row `ty` of the chunk.
pub open spec fn pattern_visible_upto(
    m: TileMapView,
    chunk_size: int,
    sx: int,
    sy: int,
    tx: int,
    ty: int,
) -> Seq<bool> {
    Seq::new(
        m.visible_tiles.len(),
        |i: int|
            if chunk_scanned(chunk_size, sx, sy, tx, ty, i % m.width, i / m.width) {
                true
            } else {
                m.visible_tiles[i]
            },
    )
}

/// The map after a pattern has been written into the chunk with corner
/// `(sx, sy)`: the tiles of the chunk are those of the pattern, row by row,
/// and are visible.
pub open spec fn pattern_rendered(
    m: TileMapView,
    pattern: Seq<TileType>,
    chunk_size: int,
    sx: int,
    sy: int,
) -> TileMapView {
    TileMapView {
        tiles: pattern_tiles_upto(m, pattern, chunk_size, sx, sy, 0, chunk_size),
        visible_tiles: pattern_visible_upto(m, chunk_size, sx, sy, 0, chunk_size),
        ..m
    }
}

/// The map after a pattern has been stamped into the chunk with corner
/// `(sx, sy)`: the tiles of the chunk are those of the pattern, row by row,
/// and are made visible where `reveal` is set.
pub open spec fn pattern_stamped(
    m: TileMapView,
    pattern: Seq<TileType>,
    chunk_size: int,
    sx: int,
    sy: int,
    reveal: bool,
) -> TileMapView {
    if reveal {
        pattern_rendered(m, pattern, chunk_size, sx, sy)
    } else {
        m.with_tiles(pattern_tiles_upto(m, pattern, chunk_size, sx, sy, 0, chunk_size))
    }
}

/// Writes `pattern` into the map at `(start_x, start_y)` and makes the
/// tiles it covers visible.
pub fn render_pattern_to_map(
    map: &mut TileMap,
    pattern: &Vec<TileType>,
    chunk_size: i32,
    start_x: i32,
    start_y: i32,
)
    requires
        old(map).wf(),
        0 < chunk_size <= CHUNK_SIZE_LIMIT,
        0 <= start_x,
        0 <= start_y,
        start_x + chunk_size <= old(map).width,
        start_y + chunk_size <= old(map).height,
        pattern.len() >= chunk_size * chunk_size,
    ensures
        final(map).wf(),
        final(map)@ == pattern_rendered(
            old(map)@,
            pattern@,
            chunk_size as int,
            start_x as int,
            start_y as int,
        ),
{
    stamp_pattern(map, pattern, chunk_size, start_x, start_y, true);
}

/// Writes `pattern` into the map at `(start_x, start_y)`, and makes the
/// tiles it covers visible where `reveal` is set.
pub fn stamp_pattern(
    map: &mut TileMap,
    pattern: &Vec<TileType>,
    chunk_size: i32,
    start_x: i32,
    start_y: i32,
    reveal: bool,
)
    requires
        old(map).wf(),
        0 < chunk_size <= CHUNK_SIZE_LIMIT,
        0 <= start_x,
        0 <= start_y,
        start_x + chunk_size <= old(map).width,
        start_y + chunk_size <= old(map).height,
        pattern.len() >= chunk_size * chunk_size,
    ensures
        final(map).wf(),
        final(map)@ == pattern_stamped(
            old(map)@,
            pattern@,
            chunk_size as int,
            start_x as int,
            start_y as int,
            reveal,
        ),
{
    let ghost m0 = map@;
    let ghost cs = chunk_size as int;
    let ghost sx = start_x as int;
    let ghost sy = start_y as int;
    let ghost pat = pattern@;
    let mut i: usize = 0;
    let mut tile_y: i32 = 0;
    proof {
        assert(0 * cs == 0) by (nonlinear_arith);
        assert(cs * cs <= 0x4000 * 0x4000) by (nonlinear_arith)
            requires
                0 < cs <= 0x4000,
        ;
        assert(map.tiles@ =~= pattern_tiles_upto(m0, pat, cs, sx, sy, 0, 0));
        assert(map.visible_tiles@ =~= pattern_visible_upto(m0, cs, sx, sy, 0, 0));
    }
    let ghost v0 = map.visible_tiles@;
    while tile_y < chunk_size
        invariant
            m0.wf(),
            map.wf(),
            cs == chunk_size as int,
            sx == start_x as int,
            sy == start_y as int,
            pat == pattern@,
            0 < cs <= CHUNK_SIZE_LIMIT,
            0 <= sx,
            0 <= sy,
            sx + cs <= m0.width,
            sy + cs <= m0.height,
            pat.len() >= cs * cs,
            0 <= tile_y <= chunk_size,
            i == tile_y * cs,
            map@ == (TileMapView {
                tiles: map.tiles@,
                visible_tiles: map.visible_tiles@,
                ..m0
            }),
            map.tiles@ == pattern_tiles_upto(m0, pat, cs, sx, sy, 0, tile_y as int),
            v0 == m0.visible_tiles,
            reveal ==> map.visible_tiles@ == pattern_visible_upto(m0, cs, sx, sy, 0, tile_y as int),
            !reveal ==> map.visible_tiles@ == v0,
        decreases chunk_size - tile_y,
    {
        let mut tile_x: i32 = 0;
        while tile_x < chunk_size
            invariant
                m0.wf(),
                map.wf(),
                cs == chunk_size as int,
                sx == start_x as int,
                sy == start_y as int,
                pat == pattern@,
                0 < cs <= CHUNK_SIZE_LIMIT,
                0 <= sx,
                0 <= sy,
                sx + cs <= m0.width,
                sy + cs <= m0.height,
                pat.len() >= cs * cs,
                0 <= tile_y < chunk_size,
                0 <= tile_x <= chunk_size,
                i == tile_y * cs + tile_x,
                map@ == (TileMapView {
                    tiles: map.tiles@,
                    visible_tiles: map.visible_tiles@,
                    ..m0
                }),
                map.tiles@ == pattern_tiles_upto(m0, pat, cs, sx, sy, tile_x as int, tile_y as int),
                v0 == m0.visible_tiles,
                reveal ==> map.visible_tiles@ == pattern_visible_upto(
                    m0,
                    cs,
                    sx,
                    sy,
                    tile_x as int,
                    tile_y as int,
                ),
                !reveal ==> map.visible_tiles@ == v0,
            decreases chunk_size - tile_x,
        {
            let map_idx = map.xy_idx(start_x + tile_x, start_y + tile_y);
            let ghost before = map.tiles@;
            let ghost seen = map.visible_tiles@;
            proof {
                lemma_idx_in_range(cs, cs, tile_x as int, tile_y as int);
                lemma_idx_in_range(m0.width, m0.height, sx + tile_x, sy + tile_y);
                assert(cs * cs <= 0x4000 * 0x4000) by (nonlinear_arith)
                    requires
                        0 < cs <= 0x4000,
                ;
            }
            map.tiles[map_idx] = pattern[i];
            if reveal {
                map.visible_tiles[map_idx] = true;
            }
            proof {
                assert forall|j: int| 0 <= j < m0.tiles.len() implies #[trigger] map.tiles[j]
                    == pattern_tiles_upto(m0, pat, cs, sx, sy, tile_x + 1, tile_y as int)[j] by {
                    lemma_idx_to_coords(m0.width, m0.height, j);
                    assert(before[j] == pattern_tiles_upto(
                        m0,
                        pat,
                        cs,
                        sx,
                        sy,
                        tile_x as int,
                        tile_y as int,
                    )[j]);
                }
                assert forall|j: int| reveal && 0 <= j < m0.tiles.len() implies #[trigger] map.visible_tiles[j]
                    == pattern_visible_upto(m0, cs, sx, sy, tile_x + 1, tile_y as int)[j] by {
                    lemma_idx_to_coords(m0.width, m0.height, j);
                    assert(seen[j] == pattern_visible_upto(
                        m0,
                        cs,
                        sx,
                        sy,
                        tile_x as int,
                        tile_y as int,
                    )[j]);
                }
                assert(map.tiles@ =~= pattern_tiles_upto(
                    m0,
                    pat,
                    cs,
                    sx,
                    sy,
                    tile_x + 1,
                    tile_y as int,
                ));
                if reveal {
                    assert(map.visible_tiles@ =~= pattern_visible_upto(
                        m0,
                        cs,
                        sx,
                        sy,
                        tile_x + 1,
                        tile_y as int,
                    ));
                }
            }
            i += 1;
            tile_x += 1;
        }
        proof {
            assert((tile_y + 1) * cs == tile_y * cs + cs) by (nonlinear_arith);
            assert(pattern_tiles_upto(m0, pat, cs, sx, sy, cs, tile_y as int) =~= pattern_tiles_upto(
                m0,
                pat,
                cs,
                sx,
                sy,
                0,
                tile_y + 1,
            ));
            assert(pattern_visible_upto(m0, cs, sx, sy, cs, tile_y as int) =~= pattern_visible_upto(
                m0,
                cs,
                sx,
                sy,
                0,
                tile_y + 1,
            ));
        }
        tile_y += 1;
    }
}

/// The place along the border `d` of the chunk with corner `(sx, sy)` at
/// which the tile `(x, y)` lies, or `-1` if it does not lie on that border.
pub open spec fn border_place(chunk_size: int, sx: int, sy: int, d: int, x: int, y: int) -> int {
    if d == 0 {
        if y == sy {
            x - sx
        } else {
            -1
        }
    } else if d == 1 {
        if y == sy + chunk_size - 1 {
            x - sx
        } else {
            -1
        }
    } else if d == 2 {
        if x == sx {
            y - sy
        } else {
            -1
        }
    } else {
        if x == sx + chunk_size - 1 {
            y - sy
        } else {
            -1
        }
    }
}

/// The tiles after the first `upto` exits of the border `d` of the chunk
/// with corner `(sx, sy)` have been marked.
pub open spec fn border_marked_upto(
    tiles: Seq<TileType>,
    w: int,
    exits: Seq<bool>,
    chunk_size: int,
    sx: int,
    sy: int,
    d: int,
    upto: int,
) -> Seq<TileType> {
    Seq::new(
        tiles.len(),
        |i: int|
            {
                let k = border_place(chunk_size, sx, sy, d, i % w, i / w);
                if 0 <= k < upto && k < exits.len() && exits[k] {
                    TileType::Debug('E')
                } else {
                    tiles[i]
                }
            },
    )
}

/// The tiles after the exits of the border `d` of the chunk with corner
/// `(sx, sy)` have been marked.
pub open spec fn border_marked(
    tiles: Seq<TileType>,
    w: int,
    exits: Seq<bool>,
    chunk_size: int,
    sx: int,
    sy: int,
    d: int,
) -> Seq<TileType> {
    border_marked_upto(tiles, w, exits, chunk_size, sx, sy, d, exits.len() as int)
}

/// Marks the exits of the border `d` of the chunk with corner
/// `(start_x, start_y)` on the map.
pub fn mark_border(
    map: &mut TileMap,
    exits: &Vec<bool>,
    chunk_size: i32,
    start_x: i32,
    start_y: i32,
    d: u8,
)
    requires
        old(map).wf(),
        0 < chunk_size <= CHUNK_SIZE_LIMIT,
        0 <= start_x,
        0 <= start_y,
        start_x + chunk_size <= old(map).width,
        start_y + chunk_size <= old(map).height,
        exits.len() <= chunk_size,
        d < 4,
    ensures
        final(map).wf(),
        final(map)@ == old(map)@.with_tiles(
            border_marked(
                old(map).tiles@,
                old(map)@.width,
                exits@,
                chunk_size as int,
                start_x as int,
                start_y as int,
                d as int,
            ),
        ),
{
    let ghost m0 = map@;
    let ghost t0 = map.tiles@;
    let ghost cs = chunk_size as int;
    let ghost sx = start_x as int;
    let ghost sy = start_y as int;
    let mut k: usize = 0;
    proof {
        assert(map.tiles@ =~= border_marked_upto(t0, m0.width, exits@, cs, sx, sy, d as int, 0));
    }
    while k < exits.len()
        invariant
            m0.wf(),
            map.wf(),
            t0 == m0.tiles,
            cs == chunk_size as int,
            sx == start_x as int,
            sy == start_y as int,
            0 < cs <= CHUNK_SIZE_LIMIT,
            0 <= sx,
            0 <= sy,
            sx + cs <= m0.width,
            sy + cs <= m0.height,
            exits.len() <= cs,
            d < 4,
            k <= exits.len(),
            map@ == m0.with_tiles(map.tiles@),
            map.tiles@ == border_marked_upto(t0, m0.width, exits@, cs, sx, sy, d as int, k as int),
        decreases exits.len() - k,
    {
        let along = k as i32;
        let (x, y) = if d == 0 {
            (start_x + along, start_y)
        } else if d == 1 {
            (start_x + along, start_y + chunk_size - 1)
        } else if d == 2 {
            (start_x, start_y + along)
        } else {
            (start_x + chunk_size - 1, start_y + along)
        };
        let ghost before = map.tiles@;
        let map_idx = map.xy_idx(x, y);
        if exits[k] {
            map.tiles[map_idx] = TileType::Debug('E');
        }
        proof {
            lemma_idx_in_range(m0.width, m0.height, x as int, y as int);
            assert forall|j: int| 0 <= j < t0.len() implies #[trigger] map.tiles[j]
                == border_marked_upto(t0, m0.width, exits@, cs, sx, sy, d as int, k + 1)[j] by {
                lemma_idx_to_coords(m0.width, m0.height, j);
                assert(before[j] == border_marked_upto(
                    t0,
                    m0.width,
                    exits@,
                    cs,
                    sx,
                    sy,
                    d as int,
                    k as int,
                )[j]);
            }
            assert(map.tiles@ =~= border_marked_upto(
                t0,
                m0.width,
                exits@,
                cs,
                sx,
                sy,
                d as int,
                k + 1,
            ));
        }
        k += 1;
    }
}

/// The map after a chunk has been drawn at `(sx, sy)`: its pattern is
/// written there, and then the exits of its northern, southern, western and
/// eastern border are marked in turn.
pub open spec fn chunk_rendered(
    m: TileMapView,
    chunk: MapChunkView,
    chunk_size: int,
    sx: int,
    sy: int,
) -> TileMapView {
    let written = pattern_rendered(m, chunk.pattern, chunk_size, sx, sy);
    let north = border_marked(written.tiles, m.width, chunk.exits[0], chunk_size, sx, sy, 0);
    let south = border_marked(north, m.width, chunk.exits[1], chunk_size, sx, sy, 1);
    let west = border_marked(south, m.width, chunk.exits[2], chunk_size, sx, sy, 2);
    let east = border_marked(west, m.width, chunk.exits[3], chunk_size, sx, sy, 3);
    written.with_tiles(east)
}

/// Draws `chunk` into the map at `(start_x, start_y)`: writes its pattern
/// and marks its exits.
pub fn render_chunk_to_map(
    map: &mut TileMap,
    chunk: &MapChunk,
    chunk_size: i32,
    start_x: i32,
    start_y: i32,
)
    requires
        old(map).wf(),
        0 < chunk_size <= CHUNK_SIZE_LIMIT,
        0 <= start_x,
        0 <= start_y,
        start_x + chunk_size <= old(map).width,
        start_y + chunk_size <= old(map).height,
        chunk.pattern.len() >= chunk_size * chunk_size,
        forall|d: int| 0 <= d < 4 ==> (#[trigger] chunk.exits[d]).len() <= chunk_size,
    ensures
        final(map).wf(),
        final(map)@ == chunk_rendered(
            old(map)@,
            chunk@,
            chunk_size as int,
            start_x as int,
            start_y as int,
        ),
{
    render_pattern_to_map(map, &chunk.pattern, chunk_size, start_x, start_y);
    assert(chunk.exits[0].len() <= chunk_size);
    mark_border(map, &chunk.exits[0], chunk_size, start_x, start_y, 0);
    assert(chunk.exits[1].len() <= chunk_size);
    mark_border(map, &chunk.exits[1], chunk_size, start_x, start_y, 1);
    assert(chunk.exits[2].len() <= chunk_size);
    mark_border(map, &chunk.exits[2], chunk_size, start_x, start_y, 2);
    assert(chunk.exits[3].len() <= chunk_size);
    mark_border(map, &chunk.exits[3], chunk_size, start_x, start_y, 3);
}

/// A chunk is on the list of those that may stand on a side of another
/// exactly if it may stand there.
pub proof fn lemma_compatible_list_members(
    chunks: Seq<MapChunkView>,
    i: int,
    d: int,
    upto: int,
    j: usize,
)
    requires
        0 <= upto <= usize::MAX,
    ensures
        compatible_list(chunks, i, d, upto).contains(j) <==> j < upto && compatible(
            chunks[i],
            d,
            chunks[j as int],
        ),
    decreases upto,
{
    if upto > 0 {
        lemma_compatible_list_members(chunks, i, d, upto - 1, j);
        let rest = compatible_list(chunks, i, d, upto - 1);
        let all = compatible_list(chunks, i, d, upto);
        if compatible(chunks[i], d, chunks[upto - 1]) {
            assert(all == rest.push((upto - 1) as usize));
            if rest.contains(j) {
                let k = choose|k: int| 0 <= k < rest.len() && rest[k] == j;
                assert(all[k] == j);
            }
            if j == upto - 1 {
                assert(all[all.len() - 1] == j);
            }
            if all.contains(j) {
                let k = choose|k: int| 0 <= k < all.len() && all[k] == j;
                if k < rest.len() {
                    assert(rest[k] == j);
                } else {
                    assert(j == upto - 1);
                }
            }
        } else {
            assert(all == rest);
        }
    } else {
        let none = compatible_list(chunks, i, d, upto);
        assert(none.len() == 0);
        if none.contains(j) {
            let k = choose|k: int| 0 <= k < none.len() && none[k] == j;
        }
    }
}

} // verus!
