//! The map renderer: decides what is drawn, in which order, and draws it.
//!
//! Given a center position, zoom level, and viewport size, a frame is made so:
//! 1. Determine which tiles are visible
//! 2. Query each tile's spatial index for visible features
//! 3. Draw features onto the canvas in proper draw order
//! 4. Handle label placement with collision detection
//!
//! The projection works on rounded numbers, so the caller supplies what it
//! gives: where tiles and points are on the screen.

use crate::arithmetic::{lemma_negated, lemma_whole_double};
use crate::bridge::TileArea;
use crate::braille_buffer::{addressable, Grid};
use crate::canvas::Canvas;
use crate::config::{ConfigModel, MapConfig};
use crate::double::{double_of, law_integers_next_to_a_number, one, saturated_i32, Double};
use crate::drawing::{Drawing, Scene};
use crate::label_buffer::LabelBuffer;
use crate::order::{index_ints, key_ints, sort_order, stable_order};
use crate::spatial::{tree_boxes, Rect};
use crate::styler::{picks, Styler};
use crate::text::{chars_of, text_eq};
use crate::tile::{feature_box, FeatureModel, Tile, TileFeature, TileLayer};
use crate::tile_source::TileKey;
use crate::utils::{base_zoom, tile_zoom};
use std::sync::Arc;
use vstd::arithmetic::power2::pow2;
use vstd::hash_set::StringHashSet;
use vstd::prelude::*;

verus! {

/// Padding (in pixels) around the viewport for rendering off-screen features
/// that might extend into view.
pub const TILE_PADDING: i64 = 64;

/// Maximum number of non-fill, non-label features drawn per frame.
/// Acts as a safety valve to prevent UI freeze when a viewport contains
/// an extreme number of road / admin line segments.
pub const MAX_LINE_FEATURES_PER_FRAME: usize = 4000;

// -- Draw order ------------------------------------------------------------

/// The layers in the order in which they are drawn. At low zoom levels, only
/// broad features are drawn. At higher zooms, more detail layers come in;
/// building and house-number layers are left out below zoom 11 and 14.
pub open spec fn layer_order(tile_zoom: int) -> Seq<Seq<char>> {
    if tile_zoom < 2 {
        seq!["landuse"@, "admin"@, "water"@, "country_label"@, "marine_label"@]
    } else {
        seq!["landuse"@, "water"@, "marine_label"@] + if tile_zoom >= 11 {
            seq!["building"@]
        } else {
            seq![]
        } + seq![
            "road"@,
            "admin"@,
            "country_label"@,
            "state_label"@,
            "water_label"@,
            "place_label"@,
            "rail_station_label"@,
            "poi_label"@,
            "road_label"@,
        ] + if tile_zoom >= 14 {
            seq!["housenum_label"@]
        } else {
            seq![]
        }
    }
}

/// Names as sequences of characters.
pub open spec fn names_of(names: Seq<&'static str>) -> Seq<Seq<char>> {
    Seq::new(names.len(), |i: int| names[i]@)
}

/// At every zoom level landuse is drawn first, so that water covers it.
pub proof fn law_landuse_is_drawn_before_water(tile_zoom: int)
    ensures
        layer_order(tile_zoom)[0] == "landuse"@,
        exists|i: int|
            0 < i < layer_order(tile_zoom).len() && #[trigger] layer_order(tile_zoom)[i]
                == "water"@,
{
    if tile_zoom < 2 {
        assert(layer_order(tile_zoom)[2] == "water"@);
    } else {
        assert(layer_order(tile_zoom)[1] == "water"@);
    }
}

/// A more detailed zoom level draws all that a less detailed one draws.
pub proof fn law_draw_order_grows(low: int, high: int, i: int)
    requires
        low <= high,
        0 <= i < layer_order(low).len(),
    ensures
        layer_order(high).contains(layer_order(low)[i]),
{
    let name = layer_order(low)[i];
    let shift: int = if high >= 11 && low < 11 {
        1
    } else {
        0
    };
    let place = if low >= 2 {
        if i >= 3 {
            i + shift
        } else {
            i
        }
    } else if high < 2 {
        i
    } else if i == 0 {
        0
    } else if i == 1 {
        4 + shift
    } else if i == 2 {
        1
    } else if i == 3 {
        5 + shift
    } else {
        2
    };
    assert(layer_order(high)[place] == name);
}

// -- Bridge gaps -----------------------------------------------------------

/// The widest gap in water that is bridged: a 128th of the width of the world
/// in pixels, rounded, and at most 32.
pub open spec fn gap_max(tile_zoom: nat, project_size: int) -> int {
    let gap = (project_size * pow2(tile_zoom) + 64) / 128;
    if gap < 32 {
        gap
    } else {
        32
    }
}

/// Max bridge fill gap, scaled by world pixel width at the given **tile zoom**
/// (integer). Using tile_zoom instead of display zoom ensures a stable gap
/// within each zoom band; fractional zoom changes only affect tile size.
/// Cap at 32 px to avoid bridging across narrow land features.
pub fn gap_max_for_zoom(tile_zoom: u8, project_size: u32) -> (r: u16)
    ensures
        r == gap_max(tile_zoom as nat, project_size as int),
        r <= 32,
{
    proof {
        vstd::arithmetic::power2::lemma2_to64();
    }
    if tile_zoom >= 12 {
        if project_size == 0 {
            assert(0 * pow2(tile_zoom as nat) == 0);
            return 0;
        }
        proof {
            if tile_zoom > 12 {
                vstd::arithmetic::power2::lemma_pow2_strictly_increases(12, tile_zoom as nat);
            }
            let p = pow2(tile_zoom as nat);
            assert(project_size * p >= 4096) by (nonlinear_arith)
                requires
                    project_size >= 1,
                    p >= 4096,
            ;
        }
        return 32;
    }
    let world: u64 = {
        proof {
            vstd::arithmetic::power2::lemma_pow2_strictly_increases(tile_zoom as nat, 12);
            vstd::bits::lemma_u64_shl_is_mul(1, tile_zoom as u64);
            let p = pow2(tile_zoom as nat);
            assert(project_size * p <= 0xffff_ffff * 4096) by (nonlinear_arith)
                requires
                    0 <= project_size <= 0xffff_ffff,
                    0 <= p <= 4096,
            ;
        }
        project_size as u64 * (1u64 << (tile_zoom as u64))
    };
    let gap: u64 = (world + 64) / 128;
    if gap < 32 {
        gap as u16
    } else {
        32
    }
}

// -- Visible tiles ---------------------------------------------------------

/// A tile that is visible in the current viewport.
#[derive(Debug, Clone, Copy)]
pub struct VisibleTile {
    /// Tile coordinates (z/x/y).
    pub key: TileKey,
    /// Fractional zoom (for minzoom/maxzoom checks).
    pub zoom: Double,
    /// Pixel position of this tile's top-left corner in the viewport.
    pub position_x: Double,
    pub position_y: Double,
    /// Pixel size of this tile at the current zoom.
    pub size: Double,
}

/// A column or row of the tile grid: where it starts and ends in the viewport.
#[derive(Debug, Clone, Copy)]
pub struct Lane {
    pub index: i32,
    pub start: Double,
    pub end: Double,
}

impl Lane {
    /// Whether the lane is near enough to a viewport of this width or height.
    pub open spec fn is_near(self, extent: int) -> bool {
        &&& !self.end.below(double_of(-TILE_PADDING))
        &&& !double_of(extent + TILE_PADDING).below(self.start)
    }

    fn is_in_reach(&self, extent: usize) -> (r: bool)
        requires
            extent <= i32::MAX,
        ensures
            r == self.is_near(extent as int),
    {
        let low: Double = Double::from_i64(-TILE_PADDING);
        let high: Double = Double::from_i64(extent as i64 + TILE_PADDING);
        !self.end.is_below(&low) && !high.is_below(&self.start)
    }
}

/// The first and last lane to look at, for the range of tile coordinates that
/// the padded viewport covers: one more than it covers on each side.
pub fn lane_range(low: Double, high: Double) -> (r: (i64, i64))
    ensures
        r.0 == if low.nan() {
            -1
        } else {
            saturated_i32(low.floor()) - 1
        },
        r.1 == if high.nan() {
            1
        } else {
            saturated_i32(high.floor()) + 1
        },
{
    (low.floor_i32() as i64 - 1, high.floor_i32() as i64 + 1)
}

/// The number of tiles along each side of the world, as far as an `i32` counts.
pub open spec fn grid_size(tile_zoom: int) -> int {
    if tile_zoom >= 31 {
        i32::MAX as int
    } else {
        pow2(tile_zoom as nat) as int
    }
}

fn grid_count(tile_zoom: u8) -> (r: i32)
    ensures
        r == grid_size(tile_zoom as int),
        r > 0,
{
    proof {
        vstd::arithmetic::power2::lemma2_to64();
        vstd::arithmetic::power2::lemma_pow2_pos(tile_zoom as nat);
    }
    if tile_zoom >= 31 {
        i32::MAX
    } else {
        proof {
            vstd::arithmetic::power2::lemma_pow2_strictly_increases(tile_zoom as nat, 31);
            vstd::bits::lemma_u64_shl_is_mul(1, tile_zoom as u64);
        }
        (1u64 << (tile_zoom as u64)) as i32
    }
}

/// What is the same for all tiles of a frame.
pub struct Frame {
    pub tile_zoom: u8,
    pub zoom: Double,
    /// The size of a tile in pixels.
    pub size: Double,
    pub width: int,
    pub height: int,
}

impl Frame {
    /// The tile where a column and a row meet. The world repeats from side to
    /// side, so its column is counted around the world.
    pub open spec fn tile_at(self, column: Lane, row: Lane) -> VisibleTile {
        VisibleTile {
            key: TileKey {
                z: self.tile_zoom,
                x: (column.index as int % grid_size(self.tile_zoom as int)) as u32,
                y: row.index as u32,
            },
            zoom: self.zoom,
            position_x: column.start,
            position_y: row.start,
            size: self.size,
        }
    }

    /// The visible tiles of the first `n` columns of a row.
    pub open spec fn row_tiles(self, columns: Seq<Lane>, row: Lane, n: nat) -> Seq<VisibleTile>
        decreases n,
    {
        if n == 0 {
            Seq::empty()
        } else {
            let before = self.row_tiles(columns, row, (n - 1) as nat);
            if columns[n - 1].is_near(self.width) {
                before.push(self.tile_at(columns[n - 1], row))
            } else {
                before
            }
        }
    }

    /// Whether a row is one of the world, and near enough.
    pub open spec fn shows_row(self, row: Lane) -> bool {
        0 <= row.index < grid_size(self.tile_zoom as int) && row.is_near(self.height)
    }

    /// The visible tiles of the first `n` rows.
    pub open spec fn tiles(self, columns: Seq<Lane>, rows: Seq<Lane>, n: nat) -> Seq<VisibleTile>
        decreases n,
    {
        if n == 0 {
            Seq::empty()
        } else {
            let before = self.tiles(columns, rows, (n - 1) as nat);
            if self.shows_row(rows[n - 1]) {
                before + self.row_tiles(columns, rows[n - 1], columns.len())
            } else {
                before
            }
        }
    }
}

/// Every visible tile exists: its column and row are those of its zoom level,
/// as far as an `i32` counts.
pub proof fn law_visible_tiles_exist(
    frame: Frame,
    columns: Seq<Lane>,
    rows: Seq<Lane>,
    n: nat,
    i: int,
)
    requires
        n <= rows.len(),
        0 <= i < frame.tiles(columns, rows, n).len(),
    ensures
        frame.tiles(columns, rows, n)[i].key.z == frame.tile_zoom,
        frame.tiles(columns, rows, n)[i].key.x < grid_size(frame.tile_zoom as int),
        frame.tiles(columns, rows, n)[i].key.y < grid_size(frame.tile_zoom as int),
    decreases n,
{
    if n > 0 {
        let before = frame.tiles(columns, rows, (n - 1) as nat);
        if i < before.len() {
            law_visible_tiles_exist(frame, columns, rows, (n - 1) as nat, i);
        } else {
            lemma_row_tiles_exist(frame, columns, rows[n - 1], columns.len(), i - before.len());
        }
    }
}

proof fn lemma_row_tiles_exist(frame: Frame, columns: Seq<Lane>, row: Lane, n: nat, i: int)
    requires
        n <= columns.len(),
        frame.shows_row(row),
        0 <= i < frame.row_tiles(columns, row, n).len(),
    ensures
        frame.row_tiles(columns, row, n)[i].key.z == frame.tile_zoom,
        frame.row_tiles(columns, row, n)[i].key.x < grid_size(frame.tile_zoom as int),
        frame.row_tiles(columns, row, n)[i].key.y < grid_size(frame.tile_zoom as int),
    decreases n,
{
    if n > 0 {
        let before = frame.row_tiles(columns, row, (n - 1) as nat);
        if i < before.len() {
            lemma_row_tiles_exist(frame, columns, row, (n - 1) as nat, i);
        } else {
            lemma_grid_size(frame.tile_zoom as int);
            vstd::arithmetic::div_mod::lemma_mod_bound(
                columns[n - 1].index as int,
                grid_size(frame.tile_zoom as int),
            );
        }
    }
}

proof fn lemma_grid_size(tile_zoom: int)
    requires
        0 <= tile_zoom,
    ensures
        0 < grid_size(tile_zoom) <= i32::MAX,
{
    vstd::arithmetic::power2::lemma2_to64();
    vstd::arithmetic::power2::lemma_pow2_pos(tile_zoom as nat);
    if tile_zoom < 31 {
        vstd::arithmetic::power2::lemma_pow2_strictly_increases(tile_zoom as nat, 31);
    }
}

// -- Renderer --------------------------------------------------------------

/// The map renderer. It owns the canvas and label buffer.
pub struct Renderer {
    pub width: usize,
    pub height: usize,
    pub canvas: Canvas,
    pub label_buffer: LabelBuffer,
    pub styler: Arc<Styler>,
    pub config: Arc<MapConfig>,
}

/// The background color that a style asks for.
pub open spec fn style_background(style: crate::styler::StyleModel) -> Option<u8> {
    match crate::styler::layer_with_id(style.layers, "background"@) {
        Some(i) => style.layers[i].color("background-color"@),
        None => None,
    }
}

impl Renderer {
    pub open spec fn wf(&self) -> bool {
        &&& self.canvas.wf()
        &&& self.label_buffer.wf()
        &&& self.width <= i32::MAX
        &&& self.height <= i32::MAX
    }

    /// Create a new renderer. The canvas is a placeholder until a size is set.
    pub fn new(styler: Arc<Styler>, config: Arc<MapConfig>) -> (r: Self)
        ensures
            r.wf(),
            r.width == 0,
            r.height == 0,
            r.canvas@ == Grid::blank(4, 4, 0),
            r.label_buffer@.len() == 0,
            r.styler == styler,
            r.config == config,
    {
        Renderer {
            width: 0,
            height: 0,
            canvas: Canvas::new(4, 4),
            label_buffer: LabelBuffer::new(),
            styler,
            config,
        }
    }

    /// Set the viewport size in pixels (Braille pixel space: width = cols*2, height = rows*4).
    pub fn set_size(&mut self, width: usize, height: usize)
        requires
            old(self).wf(),
            addressable(width as nat, height as nat),
        ensures
            final(self).wf(),
            final(self).width == width,
            final(self).height == height,
            final(self).canvas@ == Grid::blank(width as nat, height as nat, 0),
            final(self).label_buffer == old(self).label_buffer,
            final(self).styler == old(self).styler,
            final(self).config == old(self).config,
    {
        self.width = width;
        self.height = height;
        self.canvas = Canvas::new(width, height);
    }

    /// Prepare the canvas for a new frame: set background color from style + clear.
    pub fn prepare_frame(&mut self)
        requires
            old(self).wf(),
        ensures
            final(self).wf(),
            final(self).label_buffer@.len() == 0,
            final(self).label_buffer.margin == old(self).label_buffer.margin,
            final(self).canvas@ == Grid::blank(
                old(self).canvas@.width,
                old(self).canvas@.height,
                match style_background(old(self).styler@) {
                    Some(color) => color,
                    None => old(self).canvas@.background,
                },
            ),
            final(self).width == old(self).width,
            final(self).height == old(self).height,
            final(self).styler == old(self).styler,
            final(self).config == old(self).config,
    {
        self.label_buffer.clear();
        if let Some(layer) = self.styler.style_by_id("background") {
            if let Some(color) = layer.background_color() {
                self.canvas.set_background(color);
            }
        }
        self.canvas.clear();
    }

    /// Generate the layer draw order based on zoom level.
    pub fn generate_draw_order(tile_zoom: u8) -> (r: Vec<&'static str>)
        ensures
            names_of(r@) == layer_order(tile_zoom as int),
    {
        let mut layers: Vec<&'static str> = Vec::new();
        layers.push("landuse");
        if tile_zoom < 2 {
            layers.push("admin");
            layers.push("water");
            layers.push("country_label");
            layers.push("marine_label");
        } else {
            layers.push("water");
            layers.push("marine_label");
            if tile_zoom >= 11 {
                layers.push("building");
            }
            layers.push("road");
            layers.push("admin");
            layers.push("country_label");
            layers.push("state_label");
            layers.push("water_label");
            layers.push("place_label");
            layers.push("rail_station_label");
            layers.push("poi_label");
            layers.push("road_label");
            if tile_zoom >= 14 {
                layers.push("housenum_label");
            }
        }
        assert(names_of(layers@) =~= layer_order(tile_zoom as int));
        layers
    }

    /// What is the same for all tiles of a frame of this renderer.
    pub open spec fn frame(&self, zoom: Double, size: Double) -> Frame {
        Frame {
            tile_zoom: tile_zoom(zoom, self.config@.tile_range) as u8,
            zoom,
            size,
            width: self.width as int,
            height: self.height as int,
        }
    }

    /// Determine which tiles are visible in the current viewport.
    ///
    /// `zoom` is the display zoom (fractional). Tile coordinates belong to the
    /// *tile zoom* (`base_zoom`, integer), at which a tile is `size` pixels
    /// wide. `columns` and `rows` are the lanes of [`lane_range`] in order.
    pub fn visible_tiles(
        &self,
        columns: &Vec<Lane>,
        rows: &Vec<Lane>,
        zoom: Double,
        size: Double,
    ) -> (r: Vec<VisibleTile>)
        requires
            self.wf(),
        ensures
            r@ == self.frame(zoom, size).tiles(columns@, rows@, rows@.len()),
    {
        let z: u8 = base_zoom(zoom, &*self.config);
        let grid: i32 = grid_count(z);
        let ghost frame = self.frame(zoom, size);
        let mut tiles: Vec<VisibleTile> = Vec::new();
        let mut j: usize = 0;
        while j < rows.len()
            invariant
                self.wf(),
                j <= rows@.len(),
                frame == self.frame(zoom, size),
                z == frame.tile_zoom,
                grid == grid_size(z as int),
                grid > 0,
                tiles@ == frame.tiles(columns@, rows@, j as nat),
            decreases rows@.len() - j,
        {
            let row: Lane = rows[j];
            if row.index >= 0 && row.index < grid && row.is_in_reach(self.height) {
                let ghost before = tiles@;
                assert(before + Seq::<VisibleTile>::empty() =~= before);
                let mut i: usize = 0;
                while i < columns.len()
                    invariant
                        self.wf(),
                        i <= columns@.len(),
                        frame == self.frame(zoom, size),
                        z == frame.tile_zoom,
                        grid == grid_size(z as int),
                        grid > 0,
                        row.index >= 0,
                        tiles@ == before + frame.row_tiles(columns@, row, i as nat),
                    decreases columns@.len() - i,
                {
                    let column: Lane = columns[i];
                    if column.is_in_reach(self.width) {
                        let x: i32 = around(column.index, grid);
                        let tile: VisibleTile = VisibleTile {
                            key: TileKey::new(z, x as u32, row.index as u32),
                            zoom,
                            position_x: column.start,
                            position_y: row.start,
                            size,
                        };
                        tiles.push(tile);
                        assert(tiles@ =~= before + frame.row_tiles(columns@, row, i as nat).push(
                            frame.tile_at(column, row),
                        ));
                    }
                    i = i + 1;
                }
            }
            j = j + 1;
        }
        tiles
    }
}

/// A column counted around the world.
fn around(index: i32, grid: i32) -> (r: i32)
    requires
        grid > 0,
    ensures
        r == index as int % grid as int,
        0 <= r < grid,
{
    proof {
        vstd::arithmetic::div_mod::lemma_mod_bound(index as int, grid as int);
    }
    if index >= 0 {
        index % grid
    } else {
        // One step back from a multiple of the grid.
        let back: i64 = (-(index as i64 + 1)) % grid as i64;
        proof {
            let q = (-(index + 1)) / grid as int;
            vstd::arithmetic::div_mod::lemma_fundamental_div_mod(-(index + 1), grid as int);
            assert((-q - 1) * grid == -(grid * q) - grid) by (nonlinear_arith);
            vstd::arithmetic::div_mod::lemma_fundamental_div_mod_converse(
                index as int,
                grid as int,
                -q - 1,
                grid - 1 - back,
            );
        }
        (grid as i64 - 1 - back) as i32
    }
}

// -- What visible tiles show -----------------------------------------------

/// Whether a lane reaches into a viewport of this width or height with 64 pixels
/// of padding on either side. One without known ends counts as reaching in.
pub open spec fn reaches_into(lane: Lane, extent: int) -> bool {
    &&& lane.end.nan() || lane.end.value() >= -64 * one()
    &&& lane.start.nan() || lane.start.value() <= (extent + 64) * one()
}

/// Whether a tile is the one where a column and a row of a zoom level meet: its
/// left edge where the column starts, its upper edge where the row starts, its
/// column counted around the world of `side` tiles.
pub open spec fn lies_at(tile: VisibleTile, column: Lane, row: Lane, side: int) -> bool {
    &&& 0 <= tile.key.x < side
    &&& (column.index - tile.key.x) % side == 0
    &&& tile.key.y == row.index
    &&& tile.position_x == column.start
    &&& tile.position_y == row.start
}

proof fn lemma_reach(lane: Lane, extent: int)
    requires
        0 <= extent <= i32::MAX,
    ensures
        lane.is_near(extent) == reaches_into(lane, extent),
{
    lemma_whole_double(64);
    lemma_negated(double_of(64));
    assert(double_of(-64) == double_of(64).negated());
    lemma_whole_double((extent + 64) as nat);
    vstd::arithmetic::mul::lemma_mul_unary_negation(64, one());
}

proof fn lemma_tile_lies_at(frame: Frame, column: Lane, row: Lane)
    requires
        0 <= row.index,
    ensures
        lies_at(frame.tile_at(column, row), column, row, grid_size(frame.tile_zoom as int)),
{
    let side = grid_size(frame.tile_zoom as int);
    lemma_grid_size(frame.tile_zoom as int);
    vstd::arithmetic::div_mod::lemma_mod_bound(column.index as int, side);
    vstd::arithmetic::div_mod::lemma_fundamental_div_mod(column.index as int, side);
    let q = column.index as int / side;
    vstd::arithmetic::div_mod::lemma_mod_multiples_basic(q, side);
    vstd::arithmetic::mul::lemma_mul_is_commutative(q, side);
    assert(column.index - frame.tile_at(column, row).key.x == side * q);
}

/// Where the tiles of a row come from.
proof fn lemma_row_origins(frame: Frame, columns: Seq<Lane>, row: Lane, n: nat) -> (origins: Seq<
    int,
>)
    requires
        n <= columns.len(),
        0 <= row.index,
        0 <= frame.width <= i32::MAX,
    ensures
        origins.len() == frame.row_tiles(columns, row, n).len(),
        forall|k: int| 0 <= k < origins.len() ==> 0 <= #[trigger] origins[k] < n,
        forall|k: int, l: int|
            0 <= k < l < origins.len() ==> #[trigger] origins[k] < #[trigger] origins[l],
        forall|k: int|
            0 <= k < origins.len() ==> {
                let tile = #[trigger] frame.row_tiles(columns, row, n)[k];
                &&& tile == frame.tile_at(columns[origins[k]], row)
                &&& reaches_into(columns[origins[k]], frame.width)
            },
        forall|c: int|
            0 <= c < n && reaches_into(#[trigger] columns[c], frame.width) ==> origins.contains(c),
    decreases n,
{
    if n == 0 {
        Seq::empty()
    } else {
        let before = lemma_row_origins(frame, columns, row, (n - 1) as nat);
        lemma_reach(columns[n - 1], frame.width);
        if columns[n - 1].is_near(frame.width) {
            let origins = before.push(n - 1);
            assert forall|c: int|
                0 <= c < n && reaches_into(#[trigger] columns[c], frame.width) implies
                origins.contains(c) by {
                if c < n - 1 {
                    assert(before.contains(c));
                    let k = choose|k: int| 0 <= k < before.len() && before[k] == c;
                    assert(origins[k] == c);
                } else {
                    assert(origins[before.len() as int] == c);
                }
            }
            origins
        } else {
            before
        }
    }
}

proof fn lemma_origins(frame: Frame, columns: Seq<Lane>, rows: Seq<Lane>, n: nat) -> (origins: Seq<
    (int, int),
>)
    requires
        n <= rows.len(),
        0 <= frame.width <= i32::MAX,
        0 <= frame.height <= i32::MAX,
    ensures
        origins.len() == frame.tiles(columns, rows, n).len(),
        forall|k: int|
            0 <= k < origins.len() ==> {
                let (c, r) = #[trigger] origins[k];
                &&& 0 <= c < columns.len()
                &&& 0 <= r < n
                &&& frame.tiles(columns, rows, n)[k] == frame.tile_at(columns[c], rows[r])
                &&& reaches_into(columns[c], frame.width)
                &&& reaches_into(rows[r], frame.height)
                &&& 0 <= rows[r].index < grid_size(frame.tile_zoom as int)
            },
        forall|k: int, l: int|
            0 <= k < l < origins.len() ==> {
                let (c, r) = #[trigger] origins[k];
                let (d, s) = #[trigger] origins[l];
                r < s || (r == s && c < d)
            },
        forall|c: int, r: int|
            0 <= c < columns.len() && 0 <= r < n && reaches_into(
                #[trigger] columns[c],
                frame.width,
            ) && reaches_into(#[trigger] rows[r], frame.height) && 0 <= rows[r].index < grid_size(
                frame.tile_zoom as int,
            ) ==> origins.contains((c, r)),
    decreases n,
{
    if n == 0 {
        Seq::empty()
    } else {
        let before = lemma_origins(frame, columns, rows, (n - 1) as nat);
        let row = rows[n - 1];
        lemma_reach(row, frame.height);
        if frame.shows_row(row) {
            let own = lemma_row_origins(frame, columns, row, columns.len());
            let added = Seq::new(own.len(), |k: int| (own[k], n - 1));
            let origins = before + added;
            let tiles = frame.tiles(columns, rows, n);
            assert forall|k: int| 0 <= k < origins.len() implies {
                let (c, r) = #[trigger] origins[k];
                &&& 0 <= c < columns.len()
                &&& 0 <= r < n
                &&& tiles[k] == frame.tile_at(columns[c], rows[r])
                &&& reaches_into(columns[c], frame.width)
                &&& reaches_into(rows[r], frame.height)
                &&& 0 <= rows[r].index < grid_size(frame.tile_zoom as int)
            } by {
                if k < before.len() {
                    assert(origins[k] == before[k]);
                } else {
                    let m = k - before.len();
                    assert(origins[k] == (own[m], n - 1));
                    assert(tiles[k] == frame.row_tiles(columns, row, columns.len())[m]);
                }
            }
            assert forall|k: int, l: int| 0 <= k < l < origins.len() implies {
                let (c, r) = #[trigger] origins[k];
                let (d, s) = #[trigger] origins[l];
                r < s || (r == s && c < d)
            } by {
                if l < before.len() {
                    assert(origins[k] == before[k] && origins[l] == before[l]);
                } else if k < before.len() {
                    assert(origins[k] == before[k]);
                    assert(origins[l] == (own[l - before.len()], n - 1));
                } else {
                    assert(origins[k] == (own[k - before.len()], n - 1));
                    assert(origins[l] == (own[l - before.len()], n - 1));
                    assert(own[k - before.len()] < own[l - before.len()]);
                }
            }
            assert forall|c: int, r: int|
                0 <= c < columns.len() && 0 <= r < n && reaches_into(
                    #[trigger] columns[c],
                    frame.width,
                ) && reaches_into(#[trigger] rows[r], frame.height) && 0 <= rows[r].index
                    < grid_size(frame.tile_zoom as int) implies origins.contains((c, r)) by {
                if r < n - 1 {
                    assert(before.contains((c, r)));
                    let k = choose|k: int| 0 <= k < before.len() && before[k] == (c, r);
                    assert(origins[k] == (c, r));
                } else {
                    assert(own.contains(c));
                    let k = choose|k: int| 0 <= k < own.len() && own[k] == c;
                    assert(origins[before.len() + k] == (c, r));
                }
            }
            origins
        } else {
            before
        }
    }
}

/// The visible tiles are those where a column that reaches into the width of the
/// viewport meets a row of the world that reaches into its height, each once,
/// row by row. Every tile lies where its column and its row start, so that the
/// tiles of a row have their upper edges, and those of a column their left
/// edges, at the same place; and all are of one zoom level and one size.
/// `origins` names the column and the row of each.
pub proof fn law_visible_tiles_are_where_lanes_meet(
    renderer: Renderer,
    columns: Seq<Lane>,
    rows: Seq<Lane>,
    zoom: Double,
    size: Double,
) -> (origins: Seq<(int, int)>)
    requires
        renderer.wf(),
    ensures
        ({
            let tiles = renderer.frame(zoom, size).tiles(columns, rows, rows.len());
            let level = tile_zoom(zoom, renderer.config@.tile_range);
            let side = if level < 31 {
                pow2(level as nat) as int
            } else {
                i32::MAX as int
            };
            &&& origins.len() == tiles.len()
            &&& forall|k: int|
                0 <= k < tiles.len() ==> {
                    let (c, r) = origins[k];
                    &&& 0 <= c < columns.len() && 0 <= r < rows.len()
                    &&& lies_at(#[trigger] tiles[k], columns[c], rows[r], side)
                    &&& tiles[k].key.z == level
                    &&& tiles[k].zoom == zoom
                    &&& tiles[k].size == size
                    &&& reaches_into(columns[c], renderer.width as int)
                    &&& reaches_into(rows[r], renderer.height as int)
                    &&& 0 <= rows[r].index < side
                }
            &&& forall|k: int, l: int|
                0 <= k < l < origins.len() ==> {
                    let (c, r) = #[trigger] origins[k];
                    let (d, s) = #[trigger] origins[l];
                    r < s || (r == s && c < d)
                }
            &&& forall|k: int, l: int|
                0 <= k < tiles.len() && 0 <= l < tiles.len() ==> {
                    &&& origins[k].0 == origins[l].0 ==> (#[trigger] tiles[k]).position_x == (
                    #[trigger] tiles[l]).position_x
                    &&& origins[k].1 == origins[l].1 ==> tiles[k].position_y == tiles[l].position_y
                        && tiles[k].key.y == tiles[l].key.y
                }
            &&& forall|c: int, r: int|
                0 <= c < columns.len() && 0 <= r < rows.len() && reaches_into(
                    #[trigger] columns[c],
                    renderer.width as int,
                ) && reaches_into(#[trigger] rows[r], renderer.height as int) && 0 <= rows[r].index
                    < side ==> origins.contains((c, r))
        }),
{
    let frame = renderer.frame(zoom, size);
    let origins = lemma_origins(frame, columns, rows, rows.len());
    let tiles = frame.tiles(columns, rows, rows.len());
    let side = grid_size(frame.tile_zoom as int);
    assert forall|k: int| 0 <= k < tiles.len() implies {
        let (c, r) = origins[k];
        lies_at(#[trigger] tiles[k], columns[c], rows[r], side)
    } by {
        let (c, r) = origins[k];
        lemma_tile_lies_at(frame, columns[c], rows[r]);
    }
    origins
}

// -- Features of a tile ----------------------------------------------------

/// How a layer of a tile is seen.
#[derive(Debug, Clone, Copy)]
pub struct LayerView {
    /// The viewport in the coordinates of the layer.
    pub window: Rect,
    /// The extent from which on a line is at least two pixels long on an axis.
    pub line_limit: i64,
}

/// The features of a layer of a tile that are drawn, by their places.
#[derive(Debug)]
pub struct PickedLayer {
    pub layer: usize,
    pub features: Vec<usize>,
}

/// Whether a feature is shown at a zoom level: within the zoom range of its
/// style, and no line of less than two pixels on both axes.
pub open spec fn is_shown(f: FeatureModel, zoom: Double, line_limit: int) -> bool {
    &&& f.minzoom matches Some(low) ==> !zoom.below(low)
    &&& f.maxzoom matches Some(high) ==> !high.below(zoom)
    &&& !(f.style_type == "line"@ && f.bbox.1 - f.bbox.0 < line_limit && f.bbox.3 - f.bbox.2
        < line_limit)
}

fn shows(f: &TileFeature, zoom: &Double, line_limit: i64) -> (r: bool)
    ensures
        r == is_shown(f@, *zoom, line_limit as int),
{
    if let Some(low) = &f.minzoom {
        if zoom.is_below(low) {
            return false;
        }
    }
    if let Some(high) = &f.maxzoom {
        if high.is_below(zoom) {
            return false;
        }
    }
    !(text_eq(f.style_type.as_str(), "line") && (f.max_x as i64 - f.min_x as i64) < line_limit && (
    f.max_y as i64 - f.min_y as i64) < line_limit)
}

/// Whether a list names the features of a layer that are shown, each once. The
/// spatial index leaves their order open.
pub open spec fn are_shown(
    features: Seq<usize>,
    layer: TileLayer,
    view: LayerView,
    zoom: Double,
) -> bool {
    &&& features.no_duplicates()
    &&& forall|i: int| 0 <= i < features.len() ==> #[trigger] features[i] < layer.features@.len()
    &&& forall|k: usize|
        k < layer.features@.len() ==> (#[trigger] features.contains(k) <==> feature_box(
            layer.features@[k as int],
        ).meets(view.window) && is_shown(
            layer.features@[k as int]@,
            zoom,
            view.line_limit as int,
        ))
}

fn shown_features(layer: &TileLayer, view: &LayerView, zoom: &Double) -> (r: Vec<usize>)
    requires
        layer.wf(),
    ensures
        are_shown(r@, *layer, *view, *zoom),
{
    let found: Vec<usize> = layer.tree.locate(view.window);
    let mut features: Vec<usize> = Vec::new();
    let mut i: usize = 0;
    while i < found.len()
        invariant
            i <= found@.len(),
            found@.no_duplicates(),
            forall|j: int| 0 <= j < found@.len() ==> #[trigger] found@[j] < layer.features@.len(),
            features@.no_duplicates(),
            forall|j: int|
                0 <= j < features@.len() ==> #[trigger] features@[j] < layer.features@.len(),
            forall|k: usize|
                #[trigger] features@.contains(k) <==> found@.take(i as int).contains(k) && is_shown(
                    layer.features@[k as int]@,
                    *zoom,
                    view.line_limit as int,
                ),
        decreases found@.len() - i,
    {
        let k: usize = found[i];
        let ghost before = features@;
        assert(found@.take(i + 1) =~= found@.take(i as int).push(k));
        assert(!found@.take(i as int).contains(k)) by {
            if found@.take(i as int).contains(k) {
                let j = choose|j: int|
                    0 <= j < i && #[trigger] found@.take(i as int)[j] == k;
                assert(found@[j] == found@[i as int]);
            }
        }
        if shows(&layer.features[k], zoom, view.line_limit) {
            assert(!before.contains(k));
            features.push(k);
            assert(features@.no_duplicates()) by {
                assert forall|j: int| 0 <= j < before.len() implies #[trigger] before[j] != k by {
                    assert(before.contains(before[j]));
                }
            }
            assert forall|m: usize| #[trigger] features@.contains(m) <==> before.contains(m) || m
                == k by {
                lemma_push_contains(before, k, m);
            }
        }
        assert forall|m: usize| #[trigger]
            found@.take(i + 1).contains(m) <==> found@.take(i as int).contains(m) || m == k by {
            lemma_push_contains(found@.take(i as int), k, m);
        }
        i = i + 1;
    }
    assert(found@.take(i as int) =~= found@);
    assert forall|k: usize| k < layer.features@.len() implies (#[trigger] features@.contains(k)
        <==> feature_box(layer.features@[k as int]).meets(view.window) && is_shown(
        layer.features@[k as int]@,
        *zoom,
        view.line_limit as int,
    )) by {
        assert(tree_boxes(layer.tree)[k as int] == feature_box(layer.features@[k as int]));
        assert(found@.contains(k) <==> tree_boxes(layer.tree)[k as int].meets(view.window));
    }
    features
}

proof fn lemma_push_contains(s: Seq<usize>, a: usize, b: usize)
    ensures
        s.push(a).contains(b) <==> s.contains(b) || a == b,
{
    if s.contains(b) {
        let i = choose|i: int| 0 <= i < s.len() && s[i] == b;
        assert(s.push(a)[i] == b);
    }
    assert(s.push(a)[s.len() as int] == a);
}

/// The places of the layers of a tile that stand among the first `n` names, in
/// the order of the names.
pub open spec fn layers_found(tile: Tile, names: Seq<Seq<char>>, n: nat) -> Seq<int>
    decreases n,
{
    if n == 0 {
        Seq::empty()
    } else {
        let before = layers_found(tile, names, (n - 1) as nat);
        match crate::tile::layer_named(tile.layers@, names[n - 1]) {
            Some(i) => before.push(i),
            None => before,
        }
    }
}

/// The layers that were picked from.
pub open spec fn picked_from(picked: Seq<PickedLayer>) -> Seq<int> {
    Seq::new(picked.len(), |i: int| picked[i].layer as int)
}

impl Renderer {
    /// Extract visible features from a tile, grouped by layer. `views` says how
    /// each layer of the tile is seen.
    pub fn get_tile_features(
        &self,
        tile: &Tile,
        views: &Vec<LayerView>,
        zoom: Double,
    ) -> (r: Vec<PickedLayer>)
        requires
            tile.wf(),
            views@.len() == tile.layers@.len(),
        ensures
            picked_from(r@) == layers_found(
                *tile,
                layer_order(tile_zoom(zoom, self.config@.tile_range)),
                layer_order(tile_zoom(zoom, self.config@.tile_range)).len(),
            ),
            forall|i: int|
                0 <= i < r@.len() ==> (#[trigger] r@[i]).layer < tile.layers@.len() && are_shown(
                    r@[i].features@,
                    tile.layers@[r@[i].layer as int].1,
                    views@[r@[i].layer as int],
                    zoom,
                ),
    {
        let order: Vec<&'static str> = Self::generate_draw_order(base_zoom(zoom, &*self.config));
        let ghost names = names_of(order@);
        let mut picked: Vec<PickedLayer> = Vec::new();
        let mut n: usize = 0;
        while n < order.len()
            invariant
                n <= order@.len(),
                names == names_of(order@),
                tile.wf(),
                views@.len() == tile.layers@.len(),
                picked_from(picked@) == layers_found(*tile, names, n as nat),
                forall|i: int|
                    0 <= i < picked@.len() ==> (#[trigger] picked@[i]).layer < tile.layers@.len()
                        && are_shown(
                        picked@[i].features@,
                        tile.layers@[picked@[i].layer as int].1,
                        views@[picked@[i].layer as int],
                        zoom,
                    ),
            decreases order@.len() - n,
        {
            if let Some(i) = tile.layer_index(order[n]) {
                let layer: &TileLayer = &tile.layers[i].1;
                let features: Vec<usize> = shown_features(layer, &views[i], &zoom);
                let ghost before = picked_from(picked@);
                picked.push(PickedLayer { layer: i, features });
                assert(picked_from(picked@) =~= before.push(i as int));
            }
            n = n + 1;
        }
        picked
    }
}

// -- Frames ----------------------------------------------------------------

/// A feature of a tile, ready to be drawn.
#[derive(Debug)]
pub struct ReadyFeature {
    /// Its place in its layer.
    pub feature: usize,
    pub drawing: Drawing,
}

/// The features of a layer of a tile that are ready to be drawn.
#[derive(Debug)]
pub struct ReadyLayer {
    /// The place of the layer in the tile.
    pub layer: usize,
    pub features: Vec<ReadyFeature>,
}

/// A tile with fetched data and extracted features.
pub struct FetchedTile {
    pub visible: VisibleTile,
    pub tile: Arc<Tile>,
    pub layers: Vec<ReadyLayer>,
}

/// The largest tile whose water is looked at, in pixels.
pub const TILE_LIMIT: i32 = 0xffff;

impl FetchedTile {
    /// All places are those of layers and features of the tile, the drawings
    /// are complete, and the tile is not too large.
    pub open spec fn wf(&self) -> bool {
        &&& forall|l: int| 0 <= l < self.layers@.len() ==> #[trigger] self.layer_ok(l)
        &&& self.pixel_size() <= TILE_LIMIT
    }

    pub open spec fn layer_ok(&self, l: int) -> bool {
        &&& self.layers@[l].layer < self.tile.layers@.len()
        &&& forall|k: int| 0 <= k < self.layers@[l].features@.len() ==> #[trigger] self.ready_ok(l, k)
    }

    pub open spec fn ready_ok(&self, l: int, k: int) -> bool {
        let ready = self.layers@[l].features@[k];
        let layer = self.tile.layers@[self.layers@[l].layer as int].1;
        &&& ready.feature < layer.features@.len()
        &&& ready.drawing.is_complete(layer.features@[ready.feature as int].line_width)
    }

    /// The feature at a place of a layer.
    pub open spec fn feature(&self, l: int, k: int) -> TileFeature {
        self.tile.layers@[self.layers@[l].layer as int].1.features@[self.layers@[l].features@[k].feature as int]
    }

    /// The number of pixels along a side of the tile.
    pub open spec fn pixel_size(&self) -> int {
        if self.visible.size.nan() {
            0
        } else {
            saturated_i32(self.visible.size.ceil())
        }
    }

    /// The place among the first `n` layers of the one with this name.
    pub open spec fn layer_named(&self, name: Seq<char>, n: nat) -> Option<int>
        decreases n,
    {
        if n == 0 {
            None
        } else if self.tile.layers@[self.layers@[n - 1].layer as int].0@ == name {
            Some(n - 1)
        } else {
            self.layer_named(name, (n - 1) as nat)
        }
    }

    fn find_layer(&self, name: &str) -> (r: Option<usize>)
        requires
            self.wf(),
        ensures
            match r {
                Some(l) => l < self.layers@.len() && self.layer_named(name@, self.layers@.len())
                    == Some(l as int),
                None => self.layer_named(name@, self.layers@.len()) is None,
            },
    {
        let mut n: usize = self.layers.len();
        while n > 0
            invariant
                self.wf(),
                n <= self.layers@.len(),
                self.layer_named(name@, self.layers@.len()) == self.layer_named(name@, n as nat),
            decreases n,
        {
            assert(self.layer_ok(n - 1));
            let layer: usize = self.layers[n - 1].layer;
            if text_eq(self.tile.layers[layer].0.as_str(), name) {
                return Some(n - 1);
            }
            n = n - 1;
        }
        None
    }

    /// Where the water of the tile is: nowhere, if the tile has none.
    pub open spec fn water(&self) -> Option<TileArea> {
        match self.layer_named("water"@, self.layers@.len()) {
            Some(l) => if self.layers@[l].features@.len() > 0 && self.pixel_size() > 0 {
                Some(
                    TileArea {
                        x: nearest_pixel(self.visible.position_x),
                        y: nearest_pixel(self.visible.position_y),
                        size: self.pixel_size(),
                        water: self.feature(l, 0).color,
                    },
                )
            } else {
                None
            },
            None => None,
        }
    }
}

/// The pixel nearest to a position.
pub open spec fn nearest_pixel(d: Double) -> int {
    if d.nan() {
        0
    } else {
        saturated_i32(d.rounded())
    }
}

/// Whether a text has another in it.
pub open spec fn has_part(text: Seq<char>, part: Seq<char>) -> bool {
    exists|i: int|
        0 <= i <= text.len() - part.len() && #[trigger] text.subrange(i, i + part.len()) == part
}

fn contains_part(text: &str, part: &str) -> (r: bool)
    ensures
        r == has_part(text@, part@),
{
    let t: Vec<char> = chars_of(text);
    let p: Vec<char> = chars_of(part);
    let n: usize = t.len();
    let m: usize = p.len();
    if m > n {
        return false;
    }
    let mut i: usize = 0;
    while i <= n - m
        invariant
            n == t@.len(),
            m == p@.len(),
            m <= n,
            t@ == text@,
            p@ == part@,
            i <= n - m + 1,
            forall|k: int| 0 <= k < i ==> #[trigger] text@.subrange(k, k + m) != part@,
        decreases n - m + 1 - i,
    {
        let mut j: usize = 0;
        while j < m && t[i + j] == p[j]
            invariant
                n == t@.len(),
                m == p@.len(),
                t@ == text@,
                p@ == part@,
                i + m <= n,
                j <= m,
                forall|k: int| 0 <= k < j ==> t@[i + k] == #[trigger] p@[k],
            decreases m - j,
        {
            j = j + 1;
        }
        if j == m {
            assert(text@.subrange(i as int, i + part@.len()) =~= part@);
            return true;
        }
        assert(text@.subrange(i as int, i + m)[j as int] != part@[j as int]);
        i = i + 1;
    }
    false
}

/// A feature of a fetched tile that is to be drawn, by its places.
#[derive(Debug, Clone, Copy)]
pub struct Job {
    pub tile: usize,
    pub layer: usize,
    pub feature: usize,
    /// Whether it belongs to a layer of labels.
    pub label: bool,
}

impl Job {
    pub open spec fn is_in(self, tiles: Seq<FetchedTile>) -> bool {
        &&& self.tile < tiles.len()
        &&& self.layer < tiles[self.tile as int].layers@.len()
        &&& self.feature < tiles[self.tile as int].layers@[self.layer as int].features@.len()
    }

    pub open spec fn subject(self, tiles: Seq<FetchedTile>) -> TileFeature {
        tiles[self.tile as int].feature(self.layer as int, self.feature as int)
    }

    pub open spec fn drawing(self, tiles: Seq<FetchedTile>) -> Drawing {
        tiles[self.tile as int].layers@[self.layer as int].features@[self.feature as int].drawing
    }
}

/// Whether all tiles are well-formed.
pub open spec fn tiles_ok(tiles: Seq<FetchedTile>) -> bool {
    forall|t: int| 0 <= t < tiles.len() ==> (#[trigger] tiles[t]).wf()
}

/// Whether all jobs are jobs of these tiles.
pub open spec fn jobs_ok(jobs: Seq<Job>, tiles: Seq<FetchedTile>) -> bool {
    forall|i: int| 0 <= i < jobs.len() ==> (#[trigger] jobs[i]).is_in(tiles)
}

/// The features of a layer of a tile, in order.
pub open spec fn tile_jobs(tiles: Seq<FetchedTile>, t: int, name: Seq<char>) -> Seq<Job> {
    match tiles[t].layer_named(name, tiles[t].layers@.len()) {
        Some(l) => Seq::new(
            tiles[t].layers@[l].features@.len(),
            |k: int|
                Job {
                    tile: t as usize,
                    layer: l as usize,
                    feature: k as usize,
                    label: has_part(name, "label"@),
                },
        ),
        None => Seq::empty(),
    }
}

/// The features of a layer of the first `n` tiles, tile by tile.
pub open spec fn layer_jobs(tiles: Seq<FetchedTile>, name: Seq<char>, n: nat) -> Seq<Job>
    decreases n,
{
    if n == 0 {
        Seq::empty()
    } else {
        layer_jobs(tiles, name, (n - 1) as nat) + tile_jobs(tiles, n - 1, name)
    }
}

/// The features of the first `n` layers, layer by layer.
pub open spec fn all_jobs(tiles: Seq<FetchedTile>, names: Seq<Seq<char>>, n: nat) -> Seq<Job>
    decreases n,
{
    if n == 0 {
        Seq::empty()
    } else {
        all_jobs(tiles, names, (n - 1) as nat) + layer_jobs(tiles, names[n - 1], tiles.len())
    }
}

/// What is drawn as a shape among the first `n` jobs, and how many lines may
/// still be drawn: labels come later, and of what is not filled only so many
/// features are drawn.
pub open spec fn shapes(tiles: Seq<FetchedTile>, jobs: Seq<Job>, n: nat) -> (Seq<Job>, int)
    decreases n,
{
    if n == 0 {
        (Seq::empty(), MAX_LINE_FEATURES_PER_FRAME as int)
    } else {
        let (before, left) = shapes(tiles, jobs, (n - 1) as nat);
        let job = jobs[n - 1];
        if job.label {
            (before, left)
        } else if job.subject(tiles).style_type@ == "fill"@ {
            (before.push(job), left)
        } else if left <= 0 {
            (before, left)
        } else {
            (before.push(job), left - 1)
        }
    }
}

/// The labels among the first `n` jobs.
pub open spec fn labels(jobs: Seq<Job>, n: nat) -> Seq<Job>
    decreases n,
{
    if n == 0 {
        Seq::empty()
    } else {
        let before = labels(jobs, (n - 1) as nat);
        if jobs[n - 1].label {
            before.push(jobs[n - 1])
        } else {
            before
        }
    }
}

/// The ranks of labels.
pub open spec fn ranks(tiles: Seq<FetchedTile>, jobs: Seq<Job>) -> Seq<int> {
    Seq::new(
        jobs.len(),
        |i: int|
            match jobs[i].subject(tiles).sort {
                Some(rank) => rank as int,
                None => 0,
            },
    )
}

/// Labels by rank; those of one rank keep their order.
pub open spec fn by_rank(tiles: Seq<FetchedTile>, jobs: Seq<Job>) -> Seq<Job> {
    Seq::new(jobs.len(), |i: int| jobs[stable_order(ranks(tiles, jobs))[i]])
}

/// A scene after the first `n` jobs.
pub open spec fn draw_jobs(
    scene: Scene,
    tiles: Seq<FetchedTile>,
    jobs: Seq<Job>,
    config: ConfigModel,
    n: nat,
) -> Scene
    decreases n,
{
    if n == 0 {
        scene
    } else {
        draw_jobs(scene, tiles, jobs, config, (n - 1) as nat).draw(
            jobs[n - 1].subject(tiles)@,
            jobs[n - 1].drawing(tiles),
            config,
        )
    }
}

/// Whether the canvases of a list lead from one to the next by the bridges of
/// tile `i`.
pub open spec fn bridges_tile(
    tiles: Seq<FetchedTile>,
    gap: int,
    grids: Seq<Grid>,
    i: int,
) -> bool {
    match tiles[i].water() {
        Some(area) => area.is_filled(grids[i], gap, grids[i + 1]),
        None => grids[i + 1] == grids[i],
    }
}

/// Whether a list of canvases is what the first `n` tiles make one after the
/// other.
pub open spec fn bridges_tiles(
    tiles: Seq<FetchedTile>,
    gap: int,
    n: nat,
    grids: Seq<Grid>,
) -> bool {
    &&& grids.len() == n + 1
    &&& forall|i: int| 0 <= i < n ==> #[trigger] bridges_tile(tiles, gap, grids, i)
}

/// Whether the bridges of the first `n` tiles lead from one canvas to another.
pub open spec fn bridged(tiles: Seq<FetchedTile>, gap: int, n: nat, from: Grid, to: Grid) -> bool {
    exists|grids: Seq<Grid>| #[trigger]
        bridges_tiles(tiles, gap, n, grids) && grids.first() == from && grids.last() == to
}

/// What a frame is made of.
pub struct Sheet {
    pub tiles: Seq<FetchedTile>,
    pub names: Seq<Seq<char>>,
    pub gap: int,
    pub config: ConfigModel,
}

impl Sheet {
    pub open spec fn jobs(self) -> Seq<Job> {
        all_jobs(self.tiles, self.names, self.names.len())
    }

    /// The shapes, in draw order.
    pub open spec fn shapes(self) -> Seq<Job> {
        shapes(self.tiles, self.jobs(), self.jobs().len()).0
    }

    /// The labels, by rank.
    pub open spec fn labels(self) -> Seq<Job> {
        by_rank(self.tiles, labels(self.jobs(), self.jobs().len()))
    }

    /// The scene with the shapes drawn.
    pub open spec fn with_shapes(self, scene: Scene) -> Scene {
        draw_jobs(scene, self.tiles, self.shapes(), self.config, self.shapes().len())
    }

    /// The scene with the labels drawn.
    pub open spec fn with_labels(self, scene: Scene) -> Scene {
        draw_jobs(scene, self.tiles, self.labels(), self.config, self.labels().len())
    }

    /// Whether the frame leads from one scene to another: first the shapes, then
    /// the bridges between bodies of water, then the labels.
    pub open spec fn renders(self, from: Scene, to: Scene) -> bool {
        exists|grid: Grid| #[trigger]
            bridged(
                self.tiles,
                self.gap,
                self.tiles.len(),
                self.with_shapes(from).grid,
                grid,
            ) && to == self.with_labels(Scene { grid, ..self.with_shapes(from) })
    }
}

fn push_tile_jobs(jobs: &mut Vec<Job>, tiles: &Vec<FetchedTile>, t: usize, name: &str, label: bool)
    requires
        tiles_ok(tiles@),
        jobs_ok(old(jobs)@, tiles@),
        t < tiles@.len(),
        label == has_part(name@, "label"@),
    ensures
        jobs_ok(final(jobs)@, tiles@),
        final(jobs)@ == old(jobs)@ + tile_jobs(tiles@, t as int, name@),
{
    if let Some(l) = tiles[t].find_layer(name) {
        let ghost added = tile_jobs(tiles@, t as int, name@);
        let count: usize = tiles[t].layers[l].features.len();
        let mut k: usize = 0;
        assert(old(jobs)@ + added.take(0) =~= old(jobs)@);
        while k < count
            invariant
                k <= count,
                count == tiles@[t as int].layers@[l as int].features@.len(),
                t < tiles@.len(),
                l < tiles@[t as int].layers@.len(),
                label == has_part(name@, "label"@),
                added.len() == count,
                forall|i: int|
                    0 <= i < count ==> #[trigger] added[i] == (Job {
                        tile: t,
                        layer: l,
                        feature: i as usize,
                        label,
                    }),
                jobs_ok(jobs@, tiles@),
                jobs@ == old(jobs)@ + added.take(k as int),
            decreases count - k,
        {
            jobs.push(Job { tile: t, layer: l, feature: k, label });
            assert(jobs@ =~= old(jobs)@ + added.take(k + 1));
            k = k + 1;
        }
        assert(added.take(k as int) =~= added);
    } else {
        assert(jobs@ =~= old(jobs)@ + Seq::<Job>::empty());
    }
}

fn schedule(tiles: &Vec<FetchedTile>, order: &Vec<&'static str>) -> (r: Vec<Job>)
    requires
        tiles_ok(tiles@),
    ensures
        jobs_ok(r@, tiles@),
        r@ == all_jobs(tiles@, names_of(order@), order@.len()),
{
    let mut jobs: Vec<Job> = Vec::new();
    let ghost names = names_of(order@);
    let mut n: usize = 0;
    while n < order.len()
        invariant
            n <= order@.len(),
            names == names_of(order@),
            tiles_ok(tiles@),
            jobs_ok(jobs@, tiles@),
            jobs@ == all_jobs(tiles@, names, n as nat),
        decreases order@.len() - n,
    {
        let name: &'static str = order[n];
        let label: bool = contains_part(name, "label");
        let ghost before = jobs@;
        let mut t: usize = 0;
        assert(before + Seq::<Job>::empty() =~= before);
        while t < tiles.len()
            invariant
                t <= tiles@.len(),
                tiles_ok(tiles@),
                jobs_ok(jobs@, tiles@),
                label == has_part(name@, "label"@),
                jobs@ == before + layer_jobs(tiles@, name@, t as nat),
            decreases tiles@.len() - t,
        {
            push_tile_jobs(&mut jobs, tiles, t, name, label);
            assert(jobs@ =~= before + layer_jobs(tiles@, name@, (t + 1) as nat));
            t = t + 1;
        }
        n = n + 1;
    }
    jobs
}

fn split_jobs(tiles: &Vec<FetchedTile>, jobs: &Vec<Job>) -> (r: (Vec<Job>, Vec<Job>))
    requires
        tiles_ok(tiles@),
        jobs_ok(jobs@, tiles@),
    ensures
        r.0@ == shapes(tiles@, jobs@, jobs@.len()).0,
        r.1@ == labels(jobs@, jobs@.len()),
        jobs_ok(r.0@, tiles@),
        jobs_ok(r.1@, tiles@),
{
    let mut drawn: Vec<Job> = Vec::new();
    let mut later: Vec<Job> = Vec::new();
    let mut left: usize = MAX_LINE_FEATURES_PER_FRAME;
    let mut i: usize = 0;
    while i < jobs.len()
        invariant
            i <= jobs@.len(),
            tiles_ok(tiles@),
            jobs_ok(jobs@, tiles@),
            (drawn@, left as int) == shapes(tiles@, jobs@, i as nat),
            later@ == labels(jobs@, i as nat),
            jobs_ok(drawn@, tiles@),
            jobs_ok(later@, tiles@),
        decreases jobs@.len() - i,
    {
        let job: Job = jobs[i];
        assert(jobs@[i as int].is_in(tiles@));
        if job.label {
            later.push(job);
        } else if text_eq(feature_of(tiles, job).style_type.as_str(), "fill") {
            drawn.push(job);
        } else if left > 0 {
            drawn.push(job);
            left = left - 1;
        }
        i = i + 1;
    }
    (drawn, later)
}

fn feature_of<'a>(tiles: &'a Vec<FetchedTile>, job: Job) -> (r: &'a TileFeature)
    requires
        tiles_ok(tiles@),
        job.is_in(tiles@),
    ensures
        *r == job.subject(tiles@),
        job.drawing(tiles@).is_complete(r.line_width),
{
    let t: &FetchedTile = &tiles[job.tile];
    assert(t.wf() && t.layer_ok(job.layer as int));
    assert(t.ready_ok(job.layer as int, job.feature as int));
    let layer: &ReadyLayer = &t.layers[job.layer];
    &t.tile.layers[layer.layer].1.features[layer.features[job.feature].feature]
}

fn order_labels(tiles: &Vec<FetchedTile>, jobs: &Vec<Job>) -> (r: Vec<Job>)
    requires
        tiles_ok(tiles@),
        jobs_ok(jobs@, tiles@),
    ensures
        r@ == by_rank(tiles@, jobs@),
        jobs_ok(r@, tiles@),
{
    let mut keys: Vec<i64> = Vec::new();
    let ghost all = ranks(tiles@, jobs@);
    let mut i: usize = 0;
    while i < jobs.len()
        invariant
            i <= jobs@.len(),
            tiles_ok(tiles@),
            jobs_ok(jobs@, tiles@),
            all == ranks(tiles@, jobs@),
            keys@.len() == i,
            forall|k: int| 0 <= k < i ==> #[trigger] keys@[k] == all[k],
        decreases jobs@.len() - i,
    {
        assert(jobs@[i as int].is_in(tiles@));
        let rank: i64 = match feature_of(tiles, jobs[i]).sort {
            Some(n) => n,
            None => 0,
        };
        keys.push(rank);
        i = i + 1;
    }
    assert(key_ints(keys@) =~= all);
    let order: Vec<usize> = sort_order(&keys);
    let mut sorted: Vec<Job> = Vec::new();
    let mut k: usize = 0;
    while k < order.len()
        invariant
            k <= order@.len(),
            order@.len() == jobs@.len(),
            forall|m: int| 0 <= m < order@.len() ==> #[trigger] order@[m] < jobs@.len(),
            jobs_ok(jobs@, tiles@),
            jobs_ok(sorted@, tiles@),
            sorted@.len() == k,
            forall|m: int| 0 <= m < k ==> #[trigger] sorted@[m] == jobs@[order@[m] as int],
        decreases order@.len() - k,
    {
        assert(jobs@[order@[k as int] as int].is_in(tiles@));
        sorted.push(jobs[order[k]]);
        k = k + 1;
    }
    assert forall|m: int| 0 <= m < sorted@.len() implies #[trigger] sorted@[m] == by_rank(
        tiles@,
        jobs@,
    )[m] by {
        assert(index_ints(order@)[m] == order@[m]);
    }
    assert(sorted@ =~= by_rank(tiles@, jobs@));
    sorted
}

impl Renderer {
    fn run_jobs(&mut self, tiles: &Vec<FetchedTile>, jobs: &Vec<Job>, seen: &mut StringHashSet)
        requires
            old(self).wf(),
            tiles_ok(tiles@),
            jobs_ok(jobs@, tiles@),
        ensures
            final(self).wf(),
            final(self).same_setup(old(self)),
            final(self).scene(final(seen)@) == draw_jobs(
                old(self).scene(old(seen)@),
                tiles@,
                jobs@,
                old(self).config@,
                jobs@.len(),
            ),
    {
        let mut i: usize = 0;
        while i < jobs.len()
            invariant
                i <= jobs@.len(),
                self.wf(),
                self.same_setup(old(self)),
                tiles_ok(tiles@),
                jobs_ok(jobs@, tiles@),
                self.scene(seen@) == draw_jobs(
                    old(self).scene(old(seen)@),
                    tiles@,
                    jobs@,
                    old(self).config@,
                    i as nat,
                ),
            decreases jobs@.len() - i,
        {
            let job: Job = jobs[i];
            assert(jobs@[i as int].is_in(tiles@));
            let feature: &TileFeature = feature_of(tiles, job);
            let drawing: &Drawing = &tiles[job.tile].layers[job.layer].features[job.feature].drawing;
            self.draw_feature(feature, drawing, seen);
            i = i + 1;
        }
    }

    fn bridge_tiles(&mut self, tiles: &Vec<FetchedTile>, gap: u16)
        requires
            old(self).wf(),
            tiles_ok(tiles@),
            gap <= 32,
        ensures
            final(self).wf(),
            final(self).same_setup(old(self)),
            final(self).label_buffer == old(self).label_buffer,
            bridged(tiles@, gap as int, tiles@.len(), old(self).canvas@, final(self).canvas@),
    {
        let mut n: usize = 0;
        let ghost mut grids = seq![self.canvas@];
        while n < tiles.len()
            invariant
                n <= tiles@.len(),
                self.wf(),
                self.same_setup(old(self)),
                self.label_buffer == old(self).label_buffer,
                tiles_ok(tiles@),
                gap <= 32,
                bridges_tiles(tiles@, gap as int, n as nat, grids),
                grids.first() == old(self).canvas@,
                grids.last() == self.canvas@,
            decreases tiles@.len() - n,
        {
            let t: &FetchedTile = &tiles[n];
            let size: i32 = t.visible.size.ceil_i32();
            if size > 0 {
                if let Some(l) = t.find_layer("water") {
                    if t.layers[l].features.len() > 0 {
                        let job: Job = Job { tile: n, layer: l, feature: 0, label: false };
                        let color: u8 = feature_of(tiles, job).color;
                        let x: i32 = t.visible.position_x.round_i32();
                        let y: i32 = t.visible.position_y.round_i32();
                        self.canvas.bridge_fill(x, y, size as usize, color, gap);
                    }
                }
            }
            proof {
                let longer = grids.push(self.canvas@);
                assert forall|i: int| 0 <= i < n + 1 implies #[trigger] bridges_tile(
                    tiles@,
                    gap as int,
                    longer,
                    i,
                ) by {
                    if i < n {
                        assert(bridges_tile(tiles@, gap as int, grids, i));
                    }
                }
                grids = longer;
            }
            n = n + 1;
        }
    }

    /// What a frame of these tiles is made of.
    pub open spec fn sheet(&self, tiles: Seq<FetchedTile>, zoom: Double) -> Sheet {
        let z = tile_zoom(zoom, self.config@.tile_range);
        Sheet {
            tiles,
            names: layer_order(z),
            gap: gap_max(z as nat, self.config@.project_size as int),
            config: self.config@,
        }
    }

    /// Render all fetched tiles in draw order.
    pub fn render_tiles(&mut self, tiles: &Vec<FetchedTile>, zoom: Double)
        requires
            old(self).wf(),
            tiles_ok(tiles@),
        ensures
            final(self).wf(),
            final(self).same_setup(old(self)),
            exists|end: Scene| #[trigger]
                old(self).sheet(tiles@, zoom).renders(old(self).scene(Set::empty()), end)
                    && end.grid == final(self).canvas@ && end.labels == final(self).label_buffer@,
    {
        let ghost sheet = self.sheet(tiles@, zoom);
        let z: u8 = base_zoom(zoom, &*self.config);
        let order: Vec<&'static str> = Self::generate_draw_order(z);
        let jobs: Vec<Job> = schedule(tiles, &order);
        let (drawn, later): (Vec<Job>, Vec<Job>) = split_jobs(tiles, &jobs);
        assert(jobs@ == sheet.jobs());
        let mut seen: StringHashSet = StringHashSet::new();
        self.run_jobs(tiles, &drawn, &mut seen);
        let ghost middle = sheet.with_shapes(old(self).scene(Set::empty()));
        assert(self.scene(seen@) == middle);
        let gap: u16 = gap_max_for_zoom(z, self.config.project_size);
        self.bridge_tiles(tiles, gap);
        let ghost grid = self.canvas@;
        assert(bridged(sheet.tiles, sheet.gap, sheet.tiles.len(), middle.grid, grid));
        assert(self.scene(seen@) == (Scene { grid, ..middle }));
        let sorted: Vec<Job> = order_labels(tiles, &later);
        self.run_jobs(tiles, &sorted, &mut seen);
        let ghost end = self.scene(seen@);
        assert(sheet.renders(old(self).scene(Set::empty()), end));
    }
}

// -- Laws of frames --------------------------------------------------------

/// What a frame shows is determined by its tiles and by what was there before.
pub proof fn law_frames_are_deterministic(sheet: Sheet, from: Scene, a: Scene, b: Scene)
    requires
        sheet.renders(from, a),
        sheet.renders(from, b),
    ensures
        a == b,
{
    let grid = sheet.with_shapes(from).grid;
    let n = sheet.tiles.len();
    let ga = choose|g: Grid| #[trigger]
        bridged(sheet.tiles, sheet.gap, n, grid, g) && a == sheet.with_labels(
            Scene { grid: g, ..sheet.with_shapes(from) },
        );
    let gb = choose|g: Grid| #[trigger]
        bridged(sheet.tiles, sheet.gap, n, grid, g) && b == sheet.with_labels(
            Scene { grid: g, ..sheet.with_shapes(from) },
        );
    lemma_bridges_are_deterministic(sheet.tiles, sheet.gap, n, grid, ga, gb);
}

proof fn lemma_bridges_are_deterministic(
    tiles: Seq<FetchedTile>,
    gap: int,
    n: nat,
    from: Grid,
    a: Grid,
    b: Grid,
)
    requires
        bridged(tiles, gap, n, from, a),
        bridged(tiles, gap, n, from, b),
    ensures
        a == b,
{
    let x = choose|grids: Seq<Grid>| #[trigger]
        bridges_tiles(tiles, gap, n, grids) && grids.first() == from && grids.last() == a;
    let y = choose|grids: Seq<Grid>| #[trigger]
        bridges_tiles(tiles, gap, n, grids) && grids.first() == from && grids.last() == b;
    lemma_lists_are_deterministic(tiles, gap, n, x, y, n);
}

proof fn lemma_lists_are_deterministic(
    tiles: Seq<FetchedTile>,
    gap: int,
    n: nat,
    x: Seq<Grid>,
    y: Seq<Grid>,
    i: nat,
)
    requires
        bridges_tiles(tiles, gap, n, x),
        bridges_tiles(tiles, gap, n, y),
        x.first() == y.first(),
        i <= n,
    ensures
        x[i as int] == y[i as int],
    decreases i,
{
    if i > 0 {
        lemma_lists_are_deterministic(tiles, gap, n, x, y, (i - 1) as nat);
        assert(bridges_tile(tiles, gap, x, i - 1));
        assert(bridges_tile(tiles, gap, y, i - 1));
        if let Some(area) = tiles[i - 1].water() {
            crate::bridge::law_bridge_fill_is_deterministic(
                area,
                x[i - 1],
                gap,
                x[i as int],
                y[i as int],
            );
        }
    }
}

/// In a frame that starts without overlapping labels, no labels overlap.
pub proof fn law_no_labels_overlap_in_a_frame(sheet: Sheet, from: Scene, to: Scene)
    requires
        sheet.renders(from, to),
        crate::label_buffer::disjoint(from.labels),
    ensures
        crate::label_buffer::disjoint(to.labels),
{
    lemma_jobs_keep_labels_apart(
        from,
        sheet.tiles,
        sheet.shapes(),
        sheet.config,
        sheet.shapes().len(),
    );
    let middle = sheet.with_shapes(from);
    let grid = choose|g: Grid| #[trigger]
        bridged(sheet.tiles, sheet.gap, sheet.tiles.len(), middle.grid, g) && to
            == sheet.with_labels(Scene { grid: g, ..middle });
    lemma_jobs_keep_labels_apart(
        Scene { grid, ..middle },
        sheet.tiles,
        sheet.labels(),
        sheet.config,
        sheet.labels().len(),
    );
}

proof fn lemma_jobs_keep_labels_apart(
    scene: Scene,
    tiles: Seq<FetchedTile>,
    jobs: Seq<Job>,
    config: ConfigModel,
    n: nat,
)
    requires
        crate::label_buffer::disjoint(scene.labels),
    ensures
        crate::label_buffer::disjoint(draw_jobs(scene, tiles, jobs, config, n).labels),
    decreases n,
{
    if n > 0 {
        lemma_jobs_keep_labels_apart(scene, tiles, jobs, config, (n - 1) as nat);
        crate::drawing::law_labels_never_overlap(
            draw_jobs(scene, tiles, jobs, config, (n - 1) as nat),
            jobs[n - 1].subject(tiles)@,
            jobs[n - 1].drawing(tiles),
            config,
        );
    }
}

/// How many of the first `n` jobs draw something that is not filled.
pub open spec fn lines_among(tiles: Seq<FetchedTile>, jobs: Seq<Job>, n: nat) -> nat
    decreases n,
{
    if n == 0 {
        0
    } else {
        lines_among(tiles, jobs, (n - 1) as nat) + if jobs[n - 1].subject(tiles).style_type@
            == "fill"@ {
            0nat
        } else {
            1
        }
    }
}

/// A frame draws no more lines than it may, however many there are.
pub proof fn law_lines_are_limited(tiles: Seq<FetchedTile>, jobs: Seq<Job>, n: nat)
    requires
        n <= jobs.len(),
    ensures
        ({
            let (drawn, left) = shapes(tiles, jobs, n);
            lines_among(tiles, drawn, drawn.len()) + left == MAX_LINE_FEATURES_PER_FRAME && left
                >= 0
        }),
    decreases n,
{
    if n > 0 {
        law_lines_are_limited(tiles, jobs, (n - 1) as nat);
        let (before, left) = shapes(tiles, jobs, (n - 1) as nat);
        lemma_lines_push(tiles, before, jobs[n - 1], before.len());
    }
}

proof fn lemma_lines_push(tiles: Seq<FetchedTile>, jobs: Seq<Job>, job: Job, n: nat)
    requires
        n <= jobs.len(),
    ensures
        lines_among(tiles, jobs.push(job), n) == lines_among(tiles, jobs, n),
    decreases n,
{
    if n > 0 {
        lemma_lines_push(tiles, jobs, job, (n - 1) as nat);
    }
}

/// Labels of a lower rank are drawn before those of a higher one, and labels of
/// the same rank in the order of the tiles.
pub proof fn law_labels_are_drawn_by_rank(
    tiles: Seq<FetchedTile>,
    jobs: Seq<Job>,
    i: int,
    j: int,
)
    requires
        0 <= i < j < jobs.len(),
    ensures
        ranks(tiles, by_rank(tiles, jobs))[i] <= ranks(tiles, by_rank(tiles, jobs))[j],
        ranks(tiles, by_rank(tiles, jobs))[i] == ranks(tiles, by_rank(tiles, jobs))[j]
            ==> stable_order(ranks(tiles, jobs))[i] < stable_order(ranks(tiles, jobs))[j],
{
    crate::order::law_stable_order(ranks(tiles, jobs));
    let (a, b) = (stable_order(ranks(tiles, jobs))[i], stable_order(ranks(tiles, jobs))[j]);
    assert(crate::order::precedes(ranks(tiles, jobs), a, b));
}

// -- What a frame is made of -----------------------------------------------

/// The layers that are drawn, from the first to the last. Below zoom level 2
/// only the broad ones; buildings come in at 11, house numbers at 14.
pub proof fn law_layers_are_drawn_in_this_order(z: int)
    ensures
        z < 2 ==> {
            let order = layer_order(z);
            &&& order.len() == 5
            &&& order[0] == "landuse"@ && order[1] == "admin"@ && order[2] == "water"@
            &&& order[3] == "country_label"@ && order[4] == "marine_label"@
        },
        z >= 2 ==> {
            let order = layer_order(z);
            let b: int = if z >= 11 {
                1
            } else {
                0
            };
            let h: int = if z >= 14 {
                1
            } else {
                0
            };
            &&& order.len() == 12 + b + h
            &&& order[0] == "landuse"@ && order[1] == "water"@ && order[2] == "marine_label"@
            &&& z >= 11 ==> order[3] == "building"@
            &&& order[3 + b] == "road"@ && order[4 + b] == "admin"@
            &&& order[5 + b] == "country_label"@ && order[6 + b] == "state_label"@
            &&& order[7 + b] == "water_label"@ && order[8 + b] == "place_label"@
            &&& order[9 + b] == "rail_station_label"@ && order[10 + b] == "poi_label"@
            &&& order[11 + b] == "road_label"@
            &&& z >= 14 ==> order[13] == "housenum_label"@
        },
{
}

/// The widest gap that is bridged is a hundred and twenty-eighth of the width of
/// the world in pixels, up to a half, but no more than 32.
pub proof fn law_gaps_grow_with_the_world(z: nat, project_size: int)
    requires
        project_size >= 0,
    ensures
        0 <= gap_max(z, project_size) <= 32,
        gap_max(z, project_size) < 32 ==> -64 <= 128 * gap_max(z, project_size) - project_size
            * pow2(z) <= 64,
        gap_max(z, project_size) == 32 ==> project_size * pow2(z) >= 128 * 32 - 64,
        gap_max(z, project_size) <= gap_max(z + 1, project_size),
{
    vstd::arithmetic::power2::lemma_pow2_unfold(z + 1);
    vstd::arithmetic::power2::lemma_pow2_pos(z);
    let p = pow2(z) as int;
    assert(0 <= project_size * p && project_size * (2 * p) == 2 * (project_size * p))
        by (nonlinear_arith)
        requires
            project_size >= 0,
            p >= 0,
    ;
}

/// A feature is shown from the least to the greatest zoom level of its style,
/// both included; a line only if it is long enough on one of its axes.
pub proof fn law_features_are_shown_in_their_zoom_range(
    f: TileFeature,
    zoom: Double,
    line_limit: int,
)
    requires
        !zoom.nan(),
        f.minzoom matches Some(low) ==> !low.nan(),
        f.maxzoom matches Some(high) ==> !high.nan(),
    ensures
        is_shown(f@, zoom, line_limit) <==> {
            &&& f.minzoom matches Some(low) ==> low.value() <= zoom.value()
            &&& f.maxzoom matches Some(high) ==> zoom.value() <= high.value()
            &&& f.style_type@ == "line"@ ==> f.max_x - f.min_x >= line_limit || f.max_y - f.min_y
                >= line_limit
        },
{
}

/// The layers of a tile come in the order of the names, each as the last of its
/// name in the tile, and names that the tile lacks are passed over.
pub proof fn law_layers_come_in_the_order_of_names(tile: Tile, names: Seq<Seq<char>>, n: nat)
    requires
        0 < n <= names.len(),
    ensures
        layers_found(tile, names, 0).len() == 0,
        crate::tile::layer_named(tile.layers@, names[n - 1]) matches Some(i) ==> layers_found(
            tile,
            names,
            n,
        ) == layers_found(tile, names, (n - 1) as nat).push(i) && 0 <= i < tile.layers@.len()
            && tile.layers@[i].0@ == names[n - 1],
        (forall|k: int|
            0 <= k < tile.layers@.len() ==> (#[trigger] tile.layers@[k]).0@ != names[n - 1])
            ==> layers_found(tile, names, n) == layers_found(tile, names, (n - 1) as nat),
{
    crate::tile::law_names_stand_for_the_last_layer(tile.layers@, 0, names[n - 1]);
    lemma_named_layer(tile.layers@, names[n - 1]);
}

proof fn lemma_named_layer(layers: Seq<(String, TileLayer)>, name: Seq<char>)
    ensures
        crate::tile::layer_named(layers, name) matches Some(i) ==> 0 <= i < layers.len()
            && layers[i].0@ == name,
    decreases layers.len(),
{
    if layers.len() > 0 {
        lemma_named_layer(layers.drop_last(), name);
    }
}

/// The pixel nearest to a position is at most half a pixel away from it.
pub proof fn law_nearest_pixels_are_half_a_pixel_away(d: Double)
    requires
        !d.nan(),
        i32::MIN * one() <= d.value() <= i32::MAX * one(),
    ensures
        -one() <= 2 * (nearest_pixel(d) * one() - d.value()) <= one(),
{
    law_integers_next_to_a_number(d);
    crate::double::lemma_one();
    let (r, v, u) = (d.rounded(), d.value(), one());
    assert(i32::MIN <= r <= i32::MAX) by (nonlinear_arith)
        requires
            i32::MIN * u <= v <= i32::MAX * u,
            -u <= 2 * (r * u - v) <= u,
            u > 0,
    ;
}

/// The water of a tile is looked for where the tile lies: from the pixel nearest
/// to its left and upper edge, over as many pixels as its size takes, in the
/// color of the first feature of its last layer of water. A tile without such a
/// feature, or without pixels, has none.
pub proof fn law_water_lies_where_its_tile_lies(tile: FetchedTile, l: int)
    requires
        0 <= l < tile.layers@.len(),
        tile.tile.layers@[tile.layers@[l].layer as int].0@ == "water"@,
        forall|k: int|
            l < k < tile.layers@.len()
                ==> tile.tile.layers@[(#[trigger] tile.layers@[k]).layer as int].0@ != "water"@,
        !tile.visible.size.nan(),
        0 <= tile.visible.size.value() <= i32::MAX * one(),
    ensures
        tile.water() is Some <==> tile.layers@[l].features@.len() > 0 && tile.visible.size.value()
            > 0,
        tile.water() matches Some(area) ==> {
            &&& area.x == nearest_pixel(tile.visible.position_x)
            &&& area.y == nearest_pixel(tile.visible.position_y)
            &&& (area.size - 1) * one() < tile.visible.size.value() <= area.size * one()
            &&& area.water
                == tile.tile.layers@[tile.layers@[l].layer as int].1.features@[tile.layers@[l].features@[0].feature as int].color
        },
{
    lemma_last_of_name(tile, "water"@, l, tile.layers@.len());
    let size = tile.visible.size;
    law_integers_next_to_a_number(size);
    crate::double::lemma_one();
    let (c, v, u) = (size.ceil(), size.value(), one());
    assert(0 <= c <= i32::MAX && (v > 0 <==> c > 0)) by (nonlinear_arith)
        requires
            0 <= v <= i32::MAX * u,
            (c - 1) * u < v <= c * u,
            u > 0,
    ;
}

proof fn lemma_last_of_name(tile: FetchedTile, name: Seq<char>, l: int, n: nat)
    requires
        0 <= l < n <= tile.layers@.len(),
        tile.tile.layers@[tile.layers@[l].layer as int].0@ == name,
        forall|k: int|
            l < k < n ==> tile.tile.layers@[(#[trigger] tile.layers@[k]).layer as int].0@ != name,
    ensures
        tile.layer_named(name, n) == Some(l),
    decreases n,
{
    if l < n - 1 {
        assert(tile.tile.layers@[tile.layers@[n - 1].layer as int].0@ != name);
        lemma_last_of_name(tile, name, l, (n - 1) as nat);
    }
}

/// How many of the first `n` jobs are neither labels nor filled.
pub open spec fn plain_lines(tiles: Seq<FetchedTile>, jobs: Seq<Job>, n: nat) -> nat
    decreases n,
{
    if n == 0 {
        0
    } else {
        plain_lines(tiles, jobs, (n - 1) as nat) + if jobs[n - 1].label || jobs[n - 1].subject(
            tiles,
        ).style_type@ == "fill"@ {
            0nat
        } else {
            1
        }
    }
}

/// Whether a job is drawn as a shape: no label, and either filled or one of the
/// first 4000 lines of the frame.
pub open spec fn is_drawn_as_shape(tiles: Seq<FetchedTile>, jobs: Seq<Job>, k: int) -> bool {
    !jobs[k].label && (jobs[k].subject(tiles).style_type@ == "fill"@ || plain_lines(
        tiles,
        jobs,
        k as nat,
    ) < 4000)
}

/// The shapes of a frame are all its filled features and the first 4000 of its
/// other features that are no labels, in their order; its labels are all the
/// others that are marked so. `shapes_from` and `labels_from` name where each
/// comes from.
pub proof fn law_frames_draw_fills_lines_and_labels(
    tiles: Seq<FetchedTile>,
    jobs: Seq<Job>,
) -> (r: (Seq<int>, Seq<int>))
    ensures
        ({
            let (shapes_from, labels_from) = r;
            let drawn = shapes(tiles, jobs, jobs.len()).0;
            let later = labels(jobs, jobs.len());
            &&& picks(shapes_from, jobs.len(), |k: int| is_drawn_as_shape(tiles, jobs, k))
            &&& shapes_from.len() == drawn.len()
            &&& forall|i: int| 0 <= i < drawn.len() ==> #[trigger] drawn[i] == jobs[shapes_from[i]]
            &&& picks(labels_from, jobs.len(), |k: int| jobs[k].label)
            &&& labels_from.len() == later.len()
            &&& forall|i: int| 0 <= i < later.len() ==> #[trigger] later[i] == jobs[labels_from[i]]
        }),
{
    (
        lemma_shape_origins(tiles, jobs, jobs.len()),
        lemma_label_origins(jobs, jobs.len()),
    )
}

proof fn lemma_shape_origins(tiles: Seq<FetchedTile>, jobs: Seq<Job>, n: nat) -> (origins: Seq<int>)
    requires
        n <= jobs.len(),
    ensures
        picks(origins, n, |k: int| is_drawn_as_shape(tiles, jobs, k)),
        origins.len() == shapes(tiles, jobs, n).0.len(),
        forall|i: int|
            0 <= i < origins.len() ==> #[trigger] shapes(tiles, jobs, n).0[i] == jobs[origins[i]],
        shapes(tiles, jobs, n).1 == if plain_lines(tiles, jobs, n) < 4000 {
            4000 - plain_lines(tiles, jobs, n)
        } else {
            0
        },
    decreases n,
{
    if n == 0 {
        Seq::empty()
    } else {
        let m = (n - 1) as nat;
        let before = lemma_shape_origins(tiles, jobs, m);
        crate::styler::lemma_picks_push(before, m, |k: int| is_drawn_as_shape(tiles, jobs, k));
        if is_drawn_as_shape(tiles, jobs, m as int) {
            before.push(m as int)
        } else {
            before
        }
    }
}

proof fn lemma_label_origins(jobs: Seq<Job>, n: nat) -> (origins: Seq<int>)
    requires
        n <= jobs.len(),
    ensures
        picks(origins, n, |k: int| jobs[k].label),
        origins.len() == labels(jobs, n).len(),
        forall|i: int| 0 <= i < origins.len() ==> #[trigger] labels(jobs, n)[i] == jobs[origins[i]],
    decreases n,
{
    if n == 0 {
        Seq::empty()
    } else {
        let m = (n - 1) as nat;
        let before = lemma_label_origins(jobs, m);
        crate::styler::lemma_picks_push(before, m, |k: int| jobs[k].label);
        if jobs[m as int].label {
            before.push(m as int)
        } else {
            before
        }
    }
}

/// The rank of a label; 0 where it has none.
pub open spec fn rank_of_label(f: TileFeature) -> int {
    match f.sort {
        Some(n) => n as int,
        None => 0,
    }
}

/// Labels are drawn from the lowest rank to the highest, one without a rank as of
/// rank 0, and labels of one rank in the order in which they came; none is lost
/// or comes twice. `origins` names where each comes from.
pub proof fn law_lower_ranks_are_labelled_first(tiles: Seq<FetchedTile>, jobs: Seq<Job>) -> (origins:
    Seq<int>)
    ensures
        origins.len() == jobs.len(),
        by_rank(tiles, jobs).len() == jobs.len(),
        origins.no_duplicates(),
        forall|i: int|
            0 <= i < jobs.len() ==> 0 <= #[trigger] origins[i] < jobs.len() && by_rank(
                tiles,
                jobs,
            )[i] == jobs[origins[i]],
        forall|i: int, j: int|
            0 <= i < j < jobs.len() ==> {
                let (a, b) = (
                    rank_of_label(jobs[#[trigger] origins[i]].subject(tiles)),
                    rank_of_label(jobs[#[trigger] origins[j]].subject(tiles)),
                );
                a < b || (a == b && origins[i] < origins[j])
            },
{
    let keys = ranks(tiles, jobs);
    crate::order::law_stable_order(keys);
    let origins = stable_order(keys);
    assert forall|i: int, j: int| 0 <= i < j < jobs.len() implies {
        let (a, b) = (
            rank_of_label(jobs[#[trigger] origins[i]].subject(tiles)),
            rank_of_label(jobs[#[trigger] origins[j]].subject(tiles)),
        );
        a < b || (a == b && origins[i] < origins[j])
    } by {
        assert(crate::order::precedes(keys, origins[i], origins[j]));
        assert(keys[origins[i]] == rank_of_label(jobs[origins[i]].subject(tiles)));
        assert(keys[origins[j]] == rank_of_label(jobs[origins[j]].subject(tiles)));
    }
    origins
}

/// Whether a job is for a feature of the last layer of a name in its tile.
pub open spec fn is_job_of(tiles: Seq<FetchedTile>, job: Job, name: Seq<char>) -> bool {
    &&& job.is_in(tiles)
    &&& ({
        let tile = tiles[job.tile as int];
        &&& tile.tile.layers@[tile.layers@[job.layer as int].layer as int].0@ == name
        &&& forall|k: int|
            job.layer < k < tile.layers@.len()
                ==> tile.tile.layers@[(#[trigger] tile.layers@[k]).layer as int].0@ != name
    })
    &&& job.label == has_part(name, "label"@)
}

proof fn lemma_tile_jobs(tiles: Seq<FetchedTile>, t: int, name: Seq<char>)
    requires
        0 <= t < tiles.len() <= usize::MAX,
        tiles[t].layers@.len() <= usize::MAX,
        forall|l: int|
            0 <= l < tiles[t].layers@.len() ==> (#[trigger] tiles[t].layers@[l]).features@.len()
                <= usize::MAX,
    ensures
        forall|k: int|
            0 <= k < tile_jobs(tiles, t, name).len() ==> {
                let job = #[trigger] tile_jobs(tiles, t, name)[k];
                is_job_of(tiles, job, name) && job.tile == t && job.feature == k
            },
        forall|job: Job|
            #[trigger] is_job_of(tiles, job, name) && job.tile == t ==> job.feature < tile_jobs(
                tiles,
                t,
                name,
            ).len() && tile_jobs(tiles, t, name)[job.feature as int] == job,
{
    let tile = tiles[t];
    lemma_found_layer(tile, name, tile.layers@.len());
    assert forall|job: Job| #[trigger] is_job_of(tiles, job, name) && job.tile == t implies
        job.feature < tile_jobs(tiles, t, name).len() && tile_jobs(
        tiles,
        t,
        name,
    )[job.feature as int] == job by {
        lemma_last_of_name(tile, name, job.layer as int, tile.layers@.len());
    }
}

proof fn lemma_found_layer(tile: FetchedTile, name: Seq<char>, n: nat)
    requires
        n <= tile.layers@.len(),
    ensures
        tile.layer_named(name, n) matches Some(l) ==> {
            &&& 0 <= l < n
            &&& tile.tile.layers@[tile.layers@[l].layer as int].0@ == name
            &&& forall|k: int|
                l < k < n ==> tile.tile.layers@[(#[trigger] tile.layers@[k]).layer as int].0@
                    != name
        },
    decreases n,
{
    if n > 0 {
        lemma_found_layer(tile, name, (n - 1) as nat);
    }
}

/// Whether tiles can be addressed on this machine, layer by layer.
pub open spec fn are_addressable(tiles: Seq<FetchedTile>) -> bool {
    &&& tiles.len() <= usize::MAX
    &&& forall|t: int|
        0 <= t < tiles.len() ==> (#[trigger] tiles[t]).layers@.len() <= usize::MAX && forall|
            l: int,
        |
            0 <= l < tiles[t].layers@.len() ==> (#[trigger] tiles[t].layers@[l]).features@.len()
                <= usize::MAX
}

/// The features of a layer are those of all tiles, tile by tile, each once and
/// in its order in the tile.
pub proof fn law_layers_are_drawn_tile_by_tile(
    tiles: Seq<FetchedTile>,
    name: Seq<char>,
    n: nat,
)
    requires
        are_addressable(tiles),
        n <= tiles.len(),
    ensures
        forall|i: int|
            0 <= i < layer_jobs(tiles, name, n).len() ==> is_job_of(
                tiles,
                #[trigger] layer_jobs(tiles, name, n)[i],
                name,
            ) && layer_jobs(tiles, name, n)[i].tile < n,
        forall|i: int, j: int|
            0 <= i < j < layer_jobs(tiles, name, n).len() ==> {
                let a = #[trigger] layer_jobs(tiles, name, n)[i];
                let b = #[trigger] layer_jobs(tiles, name, n)[j];
                a.tile < b.tile || (a.tile == b.tile && a.feature < b.feature)
            },
        forall|job: Job|
            #[trigger] is_job_of(tiles, job, name) && job.tile < n ==> layer_jobs(
                tiles,
                name,
                n,
            ).contains(job),
    decreases n,
{
    if n > 0 {
        let m = (n - 1) as nat;
        law_layers_are_drawn_tile_by_tile(tiles, name, m);
        assert(tiles[m as int].layers@.len() <= usize::MAX);
        lemma_tile_jobs(tiles, m as int, name);
        let before = layer_jobs(tiles, name, m);
        let own = tile_jobs(tiles, m as int, name);
        let all = layer_jobs(tiles, name, n);
        assert(all == before + own);
        assert forall|i: int| 0 <= i < all.len() implies is_job_of(tiles, #[trigger] all[i], name)
            && all[i].tile < n by {
            if i < before.len() {
                assert(all[i] == before[i]);
            } else {
                assert(all[i] == own[i - before.len()]);
            }
        }
        assert forall|i: int, j: int| 0 <= i < j < all.len() implies {
            let a = #[trigger] all[i];
            let b = #[trigger] all[j];
            a.tile < b.tile || (a.tile == b.tile && a.feature < b.feature)
        } by {
            if j < before.len() {
                assert(all[i] == before[i] && all[j] == before[j]);
            } else if i < before.len() {
                assert(all[i] == before[i] && all[j] == own[j - before.len()]);
            } else {
                assert(all[i] == own[i - before.len()] && all[j] == own[j - before.len()]);
            }
        }
        assert forall|job: Job| #[trigger] is_job_of(tiles, job, name) && job.tile < n implies
            all.contains(job) by {
            if job.tile < m {
                assert(before.contains(job));
                let k = choose|k: int| 0 <= k < before.len() && before[k] == job;
                assert(all[k] == job);
            } else {
                assert(own[job.feature as int] == job);
                assert(all[before.len() + job.feature as int] == job);
            }
        }
    }
}

/// A frame draws its layers one after the other, in the order of their names: one
/// more name adds all its features at the end.
pub proof fn law_frames_go_layer_by_layer(
    tiles: Seq<FetchedTile>,
    names: Seq<Seq<char>>,
    name: Seq<char>,
)
    ensures
        all_jobs(tiles, Seq::empty(), 0).len() == 0,
        all_jobs(tiles, names.push(name), names.len() + 1) == all_jobs(tiles, names, names.len())
            + layer_jobs(tiles, name, tiles.len()),
{
    lemma_first_names(tiles, names, name, names.len());
}

proof fn lemma_first_names(
    tiles: Seq<FetchedTile>,
    names: Seq<Seq<char>>,
    name: Seq<char>,
    n: nat,
)
    requires
        n <= names.len(),
    ensures
        all_jobs(tiles, names.push(name), n) == all_jobs(tiles, names, n),
    decreases n,
{
    if n > 0 {
        lemma_first_names(tiles, names, name, (n - 1) as nat);
        assert(names.push(name)[n - 1] == names[n - 1]);
    }
}

/// The frame of a renderer takes the zoom level of its tiles, and with it the
/// layers that are drawn and the gap that is bridged.
pub proof fn law_sheets_belong_to_their_zoom_level(
    renderer: Renderer,
    tiles: Seq<FetchedTile>,
    zoom: Double,
)
    ensures
        ({
            let level = tile_zoom(zoom, renderer.config@.tile_range);
            let sheet = renderer.sheet(tiles, zoom);
            &&& sheet.tiles == tiles
            &&& sheet.names == layer_order(level)
            &&& sheet.gap == gap_max(level as nat, renderer.config@.project_size as int)
            &&& sheet.config == renderer.config@
        }),
{
}

/// One more job draws its feature, as it is drawn there, on top of what the jobs
/// in front of it drew.
pub proof fn law_jobs_are_drawn_one_on_top_of_the_other(
    scene: Scene,
    tiles: Seq<FetchedTile>,
    jobs: Seq<Job>,
    job: Job,
    config: ConfigModel,
)
    ensures
        draw_jobs(scene, tiles, Seq::empty(), config, 0) == scene,
        draw_jobs(scene, tiles, jobs.push(job), config, jobs.len() + 1) == draw_jobs(
            scene,
            tiles,
            jobs,
            config,
            jobs.len(),
        ).draw(
            tiles[job.tile as int].feature(job.layer as int, job.feature as int)@,
            tiles[job.tile as int].layers@[job.layer as int].features@[job.feature as int].drawing,
            config,
        ),
{
    lemma_first_jobs(scene, tiles, jobs, job, config, jobs.len());
}

proof fn lemma_first_jobs(
    scene: Scene,
    tiles: Seq<FetchedTile>,
    jobs: Seq<Job>,
    job: Job,
    config: ConfigModel,
    n: nat,
)
    requires
        n <= jobs.len(),
    ensures
        draw_jobs(scene, tiles, jobs.push(job), config, n) == draw_jobs(
            scene,
            tiles,
            jobs,
            config,
            n,
        ),
    decreases n,
{
    if n > 0 {
        lemma_first_jobs(scene, tiles, jobs, job, config, (n - 1) as nat);
        assert(jobs.push(job)[n - 1] == jobs[n - 1]);
    }
}

/// A frame draws its shapes on what was there, bridges the water of one tile
/// after the other on what came of it, and writes its labels, by rank, on what
/// came of that. Bridges touch neither the labels nor the texts that are known.
pub proof fn law_labels_come_on_top_of_bridges_and_shapes(sheet: Sheet, from: Scene, to: Scene) -> (
    grids: Seq<Grid>)
    requires
        sheet.renders(from, to),
    ensures
        ({
            let jobs = all_jobs(sheet.tiles, sheet.names, sheet.names.len());
            let drawn = shapes(sheet.tiles, jobs, jobs.len()).0;
            let later = by_rank(sheet.tiles, labels(jobs, jobs.len()));
            let middle = draw_jobs(from, sheet.tiles, drawn, sheet.config, drawn.len());
            &&& grids.len() == sheet.tiles.len() + 1
            &&& grids[0] == middle.grid
            &&& forall|i: int|
                0 <= i < sheet.tiles.len() ==> match (#[trigger] sheet.tiles[i]).water() {
                    Some(area) => area.is_filled(grids[i], sheet.gap, grids[i + 1]),
                    None => grids[i + 1] == grids[i],
                }
            &&& to == draw_jobs(
                Scene {
                    grid: grids[sheet.tiles.len() as int],
                    labels: middle.labels,
                    seen: middle.seen,
                },
                sheet.tiles,
                later,
                sheet.config,
                later.len(),
            )
        }),
{
    let middle = sheet.with_shapes(from);
    let grid = choose|grid: Grid| #[trigger]
        bridged(sheet.tiles, sheet.gap, sheet.tiles.len(), middle.grid, grid) && to
            == sheet.with_labels(Scene { grid, ..middle });
    let grids = choose|grids: Seq<Grid>| #[trigger]
        bridges_tiles(sheet.tiles, sheet.gap, sheet.tiles.len(), grids) && grids.first()
            == middle.grid && grids.last() == grid;
    assert forall|i: int| 0 <= i < sheet.tiles.len() implies match (
    #[trigger] sheet.tiles[i]).water() {
        Some(area) => area.is_filled(grids[i], sheet.gap, grids[i + 1]),
        None => grids[i + 1] == grids[i],
    } by {
        assert(bridges_tile(sheet.tiles, sheet.gap, grids, i));
    }
    grids
}

/// The background of a frame is the background color of the last layer of the
/// style that is called so.
pub proof fn law_backgrounds_come_from_the_style(
    style: crate::styler::StyleModel,
    i: int,
)
    ensures
        crate::styler::is_named(style.layers, i, "background"@) ==> style_background(style)
            == style.layers[i].color("background-color"@),
        (forall|k: int|
            0 <= k < style.layers.len() ==> (#[trigger] style.layers[k]).id != "background"@)
            ==> style_background(style) is None,
{
    crate::styler::law_ids_name_the_last_layer(style.layers, i, "background"@);
}

/// The features that are picked of a layer are those that meet the window, in at
/// least one point, and are shown at the zoom level.
pub proof fn law_picked_features_are_in_view(
    features: Seq<usize>,
    layer: TileLayer,
    view: LayerView,
    zoom: Double,
    k: usize,
)
    requires
        are_shown(features, layer, view, zoom),
        k < layer.features@.len(),
    ensures
        features.no_duplicates(),
        features.contains(k) <==> is_shown(layer.features@[k as int]@, zoom, view.line_limit as int)
            && exists|x: int, y: int| #[trigger]
            crate::spatial::is_in(x, y, view.window) && crate::spatial::is_in(
                x,
                y,
                feature_box(layer.features@[k as int]),
            ),
{
    let b = feature_box(layer.features@[k as int]);
    crate::spatial::law_boxes_meet_in_a_point(b, view.window);
    if b.meets(view.window) {
        let (x, y) = choose|x: int, y: int|
            crate::spatial::is_in(x, y, b) && #[trigger] crate::spatial::is_in(x, y, view.window);
        assert(crate::spatial::is_in(x, y, view.window));
    }
    if exists|x: int, y: int| #[trigger]
        crate::spatial::is_in(x, y, view.window) && crate::spatial::is_in(x, y, b) {
        let (x, y) = choose|x: int, y: int| #[trigger]
            crate::spatial::is_in(x, y, view.window) && crate::spatial::is_in(x, y, b);
        assert(crate::spatial::is_in(x, y, b) && crate::spatial::is_in(x, y, view.window));
    }
}

/// A text has another in it exactly if it is made of something before it, it, and
/// something after it.
pub proof fn law_parts_stand_somewhere_in_a_text(
    before: Seq<char>,
    part: Seq<char>,
    after: Seq<char>,
    text: Seq<char>,
)
    ensures
        has_part(before + part + after, part),
        has_part(text, part) ==> exists|a: Seq<char>, b: Seq<char>|
            text == #[trigger] (a + part + b),
{
    let whole = before + part + after;
    let i = before.len() as int;
    assert(whole.subrange(i, i + part.len()) =~= part);
    if has_part(text, part) {
        let k = choose|k: int|
            0 <= k <= text.len() - part.len() && #[trigger] text.subrange(k, k + part.len())
                == part;
        let (a, b) = (text.take(k), text.skip(k + part.len()));
        assert(text =~= a + part + b);
    }
}

} // verus!
