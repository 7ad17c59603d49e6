use vstd::prelude::*;
use crate::map::{fresh_map, lemma_idx_in_range, TileMap, TileMapView, TileType};
use crate::map_builders::common::only_walls_and_floors;

verus! {

/// The code-page-437 code that stands for a floor tile in an example image.
pub const FLOOR_GLYPH: u32 = 32;

/// The code-page-437 code that stands for a wall tile in an example image.
pub const WALL_GLYPH: u32 = 35;

/// One layer of an example image: for each of its cells the code-page-437
/// code of the character drawn there.
///
/// The cells are stored column by column: the cell at column `x` and row
/// `y` is at index `x * height + y`.
#[derive(Debug)]
pub struct RexLayer {
    pub width: usize,
    pub height: usize,
    pub cells: Vec<u32>,
}

/// The mathematical content of a [`RexLayer`].
pub struct RexLayerView {
    pub width: int,
    pub height: int,
    pub cells: Seq<u32>,
}

impl View for RexLayer {
    type V = RexLayerView;

    open spec fn view(&self) -> RexLayerView {
        RexLayerView {
            width: self.width as int,
            height: self.height as int,
            cells: self.cells@,
        }
    }
}

impl RexLayerView {
    /// The layer has a cell for every column and row.
    pub open spec fn wf(self) -> bool {
        &&& 0 <= self.width
        &&& 0 <= self.height
        &&& self.cells.len() == self.width * self.height
    }

    /// The code of the cell at column `x`, row `y`.
    pub open spec fn glyph(self, x: int, y: int) -> u32 {
        self.cells[x * self.height + y]
    }
}

/// The views of a list of layers.
pub open spec fn layer_views(layers: Seq<RexLayer>) -> Seq<RexLayerView> {
    Seq::new(layers.len(), |i: int| layers[i]@)
}

/// What a cell of an example image makes of a tile: a space makes it floor,
/// a hash makes it wall, and any other character leaves it as it is.
pub open spec fn decoded(glyph: u32, tile: TileType) -> TileType {
    if glyph == FLOOR_GLYPH {
        TileType::Floor
    } else if glyph == WALL_GLYPH {
        TileType::Wall
    } else {
        tile
    }
}

/// The tiles after a layer has been read up to, but not including, column
/// `cx` of row `cy`: every tile that the layer has a cell for and that the
/// scan has passed is what its cell makes of it.
pub open spec fn layer_read_upto(
    tiles: Seq<TileType>,
    w: int,
    layer: RexLayerView,
    cx: int,
    cy: int,
) -> Seq<TileType> {
    Seq::new(
        tiles.len(),
        |i: int|
            {
                let x = i % w;
                let y = i / w;
                if x < layer.width && y < layer.height && (y < cy || (y == cy && x < cx)) {
                    decoded(layer.glyph(x, y), tiles[i])
                } else {
                    tiles[i]
                }
            },
    )
}

/// The tiles after a layer has been read: every tile that the layer has a
/// cell for is what its cell makes of it.
pub open spec fn layer_read(tiles: Seq<TileType>, w: int, h: int, layer: RexLayerView) -> Seq<
    TileType,
> {
    layer_read_upto(tiles, w, layer, 0, h)
}

/// The tiles after the first `k` layers have been read, one after the other.
pub open spec fn layers_read(
    tiles: Seq<TileType>,
    w: int,
    h: int,
    layers: Seq<RexLayerView>,
    k: int,
) -> Seq<TileType>
    decreases k,
{
    if k <= 0 {
        tiles
    } else {
        layer_read(layers_read(tiles, w, h, layers, k - 1), w, h, layers[k - 1])
    }
}

/// The map that an example image stands for: a fresh map on which the
/// layers of the image have been read, one after the other.
pub open spec fn rex_map(depth: int, layers: Seq<RexLayerView>) -> TileMapView {
    let m = fresh_map(depth);
    m.with_tiles(layers_read(m.tiles, m.width, m.height, layers, layers.len() as int))
}

/// Reads one layer onto the map.
fn read_layer(map: &mut TileMap, layer: &RexLayer)
    requires
        old(map).wf(),
        layer@.wf(),
    ensures
        final(map).wf(),
        final(map)@ == old(map)@.with_tiles(
            layer_read(old(map).tiles@, old(map)@.width, old(map)@.height, layer@),
        ),
        only_walls_and_floors(old(map).tiles@) ==> only_walls_and_floors(final(map).tiles@),
{
    let ghost m0 = map@;
    let ghost t0 = map.tiles@;
    let ghost lv = layer@;
    let lim_x: usize = if layer.width < map.width as usize {
        layer.width
    } else {
        map.width as usize
    };
    let lim_y: usize = if layer.height < map.height as usize {
        layer.height
    } else {
        map.height as usize
    };
    let mut y: usize = 0;
    proof {
        assert(map.tiles@ =~= layer_read_upto(t0, m0.width, lv, 0, 0));
    }
    while y < lim_y
        invariant
            m0.wf(),
            map.wf(),
            t0 == m0.tiles,
            lv == layer@,
            lv.wf(),
            lim_x == (if lv.width < m0.width { lv.width } else { m0.width }),
            lim_y == (if lv.height < m0.height { lv.height } else { m0.height }),
            y <= lim_y,
            map@ == m0.with_tiles(map.tiles@),
            map.tiles@ == layer_read_upto(t0, m0.width, lv, 0, y as int),
            only_walls_and_floors(t0) ==> only_walls_and_floors(map.tiles@),
        decreases lim_y - y,
    {
        let mut x: usize = 0;
        while x < lim_x
            invariant
                m0.wf(),
                map.wf(),
                t0 == m0.tiles,
                lv == layer@,
                lv.wf(),
                lim_x == (if lv.width < m0.width { lv.width } else { m0.width }),
                lim_y == (if lv.height < m0.height { lv.height } else { m0.height }),
                y < lim_y,
                x <= lim_x,
                map@ == m0.with_tiles(map.tiles@),
                map.tiles@ == layer_read_upto(t0, m0.width, lv, x as int, y as int),
                only_walls_and_floors(t0) ==> only_walls_and_floors(map.tiles@),
            decreases lim_x - x,
        {
            proof {
                lemma_idx_in_range(lv.height, lv.width, y as int, x as int);
                lemma_idx_in_range(m0.width, m0.height, x as int, y as int);
                assert(0 <= x * lv.height) by (nonlinear_arith)
                    requires
                        0 <= x,
                        0 <= lv.height,
                ;
                assert(lv.height * lv.width == lv.width * lv.height) by (nonlinear_arith);
                assert(x * layer.height + y < layer.cells.len());
            }
            let cell = layer.cells[x * layer.height + y];
            let idx = map.xy_idx(x as i32, y as i32);
            let ghost before = map.tiles@;
            if cell == FLOOR_GLYPH {
                map.tiles[idx] = TileType::Floor;
            } else if cell == WALL_GLYPH {
                map.tiles[idx] = TileType::Wall;
            }
            proof {
                assert forall|j: int| 0 <= j < t0.len() implies #[trigger] map.tiles[j]
                    == layer_read_upto(t0, m0.width, lv, x + 1, y as int)[j] by {
                    crate::map::lemma_idx_to_coords(m0.width, m0.height, j);
                    assert(before[j] == layer_read_upto(t0, m0.width, lv, x as int, y as int)[j]);
                }
                assert(map.tiles@ =~= layer_read_upto(t0, m0.width, lv, x + 1, y as int));
                if only_walls_and_floors(t0) {
                    assert forall|j: int| 0 <= j < map.tiles.len() implies #[trigger] map.tiles[j]
                        == TileType::Wall || map.tiles[j] == TileType::Floor by {
                        assert(before[j] == TileType::Wall || before[j] == TileType::Floor);
                    }
                }
            }
            x += 1;
        }
        proof {
            assert forall|j: int| 0 <= j < t0.len() implies layer_read_upto(
                t0,
                m0.width,
                lv,
                lim_x as int,
                y as int,
            )[j] == layer_read_upto(t0, m0.width, lv, 0, y + 1)[j] by {
                crate::map::lemma_idx_to_coords(m0.width, m0.height, j);
            }
            assert(layer_read_upto(t0, m0.width, lv, lim_x as int, y as int) =~= layer_read_upto(
                t0,
                m0.width,
                lv,
                0,
                y + 1,
            ));
        }
        y += 1;
    }
    proof {
        assert forall|j: int| 0 <= j < t0.len() implies layer_read_upto(
            t0,
            m0.width,
            lv,
            0,
            lim_y as int,
        )[j] == layer_read_upto(t0, m0.width, lv, 0, m0.height)[j] by {
            crate::map::lemma_idx_to_coords(m0.width, m0.height, j);
        }
        assert(layer_read_upto(t0, m0.width, lv, 0, lim_y as int) =~= layer_read(
            t0,
            m0.width,
            m0.height,
            lv,
        ));
    }
}

/// Turns an example image into a map: on a fresh map, a space in a layer
/// makes the tile floor and a hash makes it wall; other characters, and
/// cells that lie off the map, are passed over.
pub fn load_rex_map(new_depth: i32, layers: &Vec<RexLayer>) -> (map: TileMap)
    requires
        forall|i: int| 0 <= i < layers.len() ==> (#[trigger] layers[i])@.wf(),
    ensures
        map.wf(),
        map@ == rex_map(new_depth as int, layer_views(layers@)),
        only_walls_and_floors(map.tiles@),
{
    let mut map = TileMap::new(new_depth);
    let ghost m0 = map@;
    let ghost lvs = layer_views(layers@);
    let mut k: usize = 0;
    while k < layers.len()
        invariant
            map.wf(),
            m0 == fresh_map(new_depth as int),
            lvs == layer_views(layers@),
            forall|i: int| 0 <= i < layers.len() ==> (#[trigger] layers[i])@.wf(),
            k <= layers.len(),
            map@ == m0.with_tiles(map.tiles@),
            map.tiles@ == layers_read(m0.tiles, m0.width, m0.height, lvs, k as int),
            only_walls_and_floors(map.tiles@),
        decreases layers.len() - k,
    {
        assert(lvs[k as int] == layers[k as int]@);
        read_layer(&mut map, &layers[k]);
        k += 1;
    }
    map
}

} // verus!
