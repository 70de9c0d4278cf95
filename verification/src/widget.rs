//! Map state and widget.
//!
//! `MapWidget` is a lightweight widget. `MapState` holds all mutable state:
//! center position, zoom, tile cache, overlay collection, and the renderer.
//!
//! Sums, projections and logarithms round, so the methods here take their
//! results: a longitude comes with what it is one turn further, a new zoom
//! level as the sum of the old one and a step.

use crate::braille_buffer::{cell_views, least, CellDraw, ColorIdx};
use crate::config::MapConfig;
use crate::double::{double_of, one, Double, ONE};
use crate::geo::{document_shapes, parsed_geojson, LatLon};
use crate::json::parsed_json;
use crate::overlay::{
    area_overlay, has_id, id_after, line_overlay, marker_overlay, without, IdSource, KindModel,
    OverlayCollection, OverlayId, OverlayModel,
};
use crate::renderer::Renderer;
use crate::styler::{style_compilable, style_of, text_model, StyleError, Styler};
use crate::tile_source::{cache_limit, cached, TileSource, CACHE_LIMIT};
use crate::utils::{clamped_latitude, normalize, wrapped_longitude};
use std::sync::Arc;
use vstd::prelude::*;

verus! {

// -- State -----------------------------------------------------------------

/// Where a drag started: column, row, latitude and longitude.
#[derive(Debug, Clone, Copy)]
pub struct DragAnchor {
    pub col: Double,
    pub row: Double,
    pub lat: Double,
    pub lon: Double,
}

/// Mutable map state. Holds the center position, zoom level, overlays,
/// tile source, renderer, and a "needs redraw" flag.
pub struct MapState {
    /// Current center latitude.
    pub center_lat: Double,
    /// Current center longitude.
    pub center_lon: Double,
    /// Current fractional zoom level.
    pub zoom: Double,
    /// Minimum zoom (auto-calculated from viewport size).
    pub min_zoom: Double,
    /// Whether to use Braille rendering.
    pub use_braille: bool,
    /// The map configuration.
    pub config: Arc<MapConfig>,
    /// The tile source (HTTP / MBTiles).
    pub tile_source: TileSource,
    /// The compiled style.
    pub styler: Arc<Styler>,
    /// The renderer (canvas + label buffer).
    pub renderer: Renderer,
    /// Custom overlays.
    pub overlays: OverlayCollection,
    /// Whether a redraw is needed (set by navigation methods, cleared by render).
    pub needs_redraw: bool,
    /// The last rendered viewport size (cols, rows), to detect a resize.
    pub last_area: Option<(u16, u16)>,
    /// Active drag anchor.
    pub drag_anchor: Option<DragAnchor>,
}

/// The center, zoom and flags of a state.
pub struct ViewModel {
    pub center_lat: Double,
    pub center_lon: Double,
    pub zoom: Double,
    pub min_zoom: Double,
    pub use_braille: bool,
    pub needs_redraw: bool,
    pub last_area: Option<(u16, u16)>,
    pub drag_anchor: Option<DragAnchor>,
}

impl ViewModel {
    /// The view with a new center.
    pub open spec fn centered(self, lat: Double, lon: Double) -> ViewModel {
        ViewModel {
            center_lat: clamped_latitude(lat),
            center_lon: wrapped_longitude(lon),
            needs_redraw: true,
            ..self
        }
    }

    /// The view with a new zoom level, as near to it as the limits allow.
    pub open spec fn zoomed(self, zoom: Double, max_zoom: u8) -> ViewModel {
        ViewModel {
            zoom: zoom.clamped(self.min_zoom, double_of(max_zoom as int)),
            needs_redraw: true,
            ..self
        }
    }

    /// The view in the other way of rendering.
    pub open spec fn toggled(self) -> ViewModel {
        ViewModel { use_braille: !self.use_braille, needs_redraw: true, ..self }
    }

    /// The view in a viewport of another size.
    pub open spec fn resized(self, cols: u16, rows: u16, min_zoom: Double) -> ViewModel {
        ViewModel {
            min_zoom,
            zoom: if self.zoom.below(min_zoom) {
                min_zoom
            } else {
                self.zoom
            },
            last_area: Some((cols, rows)),
            needs_redraw: true,
            ..self
        }
    }
}

/// Whether a viewport is large enough to draw in: 4 pixels on each axis.
pub open spec fn is_drawable(cols: u16, rows: u16) -> bool {
    2 * cols >= 4 && 4 * rows >= 4
}

impl MapState {
    pub open spec fn wf(&self) -> bool {
        self.renderer.wf() && self.tile_source.wf()
    }

    pub open spec fn view_model(&self) -> ViewModel {
        ViewModel {
            center_lat: self.center_lat,
            center_lon: self.center_lon,
            zoom: self.zoom,
            min_zoom: self.min_zoom,
            use_braille: self.use_braille,
            needs_redraw: self.needs_redraw,
            last_area: self.last_area,
            drag_anchor: self.drag_anchor,
        }
    }

    /// Whether another state has the same configuration, style and tiles.
    pub open spec fn same_setup(&self, other: &MapState) -> bool {
        &&& self.config == other.config
        &&& self.tile_source == other.tile_source
        &&& self.styler == other.styler
    }

    /// Whether another state differs from this one in its view alone.
    pub open spec fn same_map(&self, other: &MapState) -> bool {
        &&& self.same_setup(other)
        &&& self.renderer == other.renderer
        &&& self.overlays == other.overlays
    }

    /// Create a new map state with the given configuration, whose style must be
    /// usable. `cache_dir` is where tiles can be kept on disk.
    pub fn new(config: Arc<MapConfig>, cache_dir: Option<String>) -> (r: Result<Self, StyleError>)
        requires
            0 < config@.tile_cache_size <= CACHE_LIMIT,
        ensures
            match r {
                Ok(s) => {
                    &&& parsed_json(config@.style_json) matches Some(root) && style_compilable(root)
                        && s.styler@ == style_of(root)
                    &&& s.wf()
                    &&& s.is_new(config)
                    &&& text_model(s.tile_source.cache_dir)
                        == if config@.persist_downloaded_tiles {
                        text_model(cache_dir)
                    } else {
                        None
                    }
                },
                Err(StyleError::Json(_)) => parsed_json(config@.style_json) is None,
                Err(StyleError::Filter) => parsed_json(config@.style_json) matches Some(root)
                    && !style_compilable(root),
            },
    {
        let styler: Arc<Styler> = match Styler::new(config.style_json.as_str()) {
            Ok(s) => Arc::new(s),
            Err(e) => {
                return Err(e);
            },
        };
        let mut tile_source: TileSource = TileSource::new(&*config, cache_dir);
        tile_source.set_styler(styler.clone());
        let renderer: Renderer = Renderer::new(styler.clone(), config.clone());
        let zoom: Double = match config.initial_zoom {
            Some(z) => z,
            None => Double::from_bits(0),
        };
        Ok(
            MapState {
                center_lat: config.initial_lat,
                center_lon: config.initial_lon,
                zoom,
                min_zoom: Double::from_bits(0),
                use_braille: config.use_braille,
                config,
                tile_source,
                styler,
                renderer,
                overlays: OverlayCollection::new(),
                needs_redraw: true,
                last_area: None,
                drag_anchor: None,
            },
        )
    }

    /// Whether a state is one that was just made for a configuration.
    pub open spec fn is_new(&self, config: Arc<MapConfig>) -> bool {
        &&& self.view_model() == (ViewModel {
            center_lat: config@.initial_lat,
            center_lon: config@.initial_lon,
            zoom: match config@.initial_zoom {
                Some(z) => z,
                None => Double { bits: 0 },
            },
            min_zoom: Double { bits: 0 },
            use_braille: config@.use_braille,
            needs_redraw: true,
            last_area: None,
            drag_anchor: None,
        })
        &&& self.config == config
        &&& self.renderer.width == 0
        &&& self.renderer.height == 0
        &&& self.renderer.styler == self.styler
        &&& self.renderer.config == config
        &&& self.overlays@.len() == 0
        &&& self.tile_source.styler == Some(self.styler)
        &&& self.tile_source.source@ == crate::tile_source::source_of(
            config@.mbtiles_path,
            config@.source,
        )
        &&& self.tile_source.mode == crate::tile_source::mode_of(self.tile_source.source@)
        &&& self.tile_source.persist == config@.persist_downloaded_tiles
        &&& cached(self.tile_source.cache).len() == 0
        &&& cache_limit(self.tile_source.cache) == config@.tile_cache_size
    }

    /// Builder: set the initial center.
    pub fn with_center(self, lat: Double, lon: Double) -> (r: Self)
        ensures
            r == (MapState { center_lat: lat, center_lon: lon, ..self }),
    {
        let mut s: MapState = self;
        s.center_lat = lat;
        s.center_lon = lon;
        s
    }

    /// Builder: set the initial zoom.
    pub fn with_zoom(self, zoom: Double) -> (r: Self)
        ensures
            r == (MapState { zoom, ..self }),
    {
        let mut s: MapState = self;
        s.zoom = zoom;
        s
    }

    // -- Navigation --------------------------------------------------------

    /// Set the center position.
    pub fn set_center(&mut self, lat: Double, lon: Double)
        ensures
            final(self).same_map(old(self)),
            final(self).view_model() == old(self).view_model().centered(lat, lon),
    {
        let (new_lon, new_lat): (Double, Double) = normalize(lon, lat);
        self.center_lat = new_lat;
        self.center_lon = new_lon;
        self.needs_redraw = true;
    }

    /// Move the center by a lat/lon delta, to the sums of the center and the
    /// delta.
    pub fn move_by(&mut self, new_lat: Double, new_lon: Double)
        ensures
            final(self).same_map(old(self)),
            final(self).view_model() == old(self).view_model().centered(new_lat, new_lon),
    {
        self.set_center(new_lat, new_lon);
    }

    /// Zoom to `new_zoom`, which is the zoom level plus a step (+ve = zoom in,
    /// -ve = zoom out).
    pub fn zoom_by(&mut self, new_zoom: Double)
        ensures
            final(self).same_map(old(self)),
            final(self).view_model() == old(self).view_model().zoomed(
                new_zoom,
                old(self).config@.max_zoom,
            ),
    {
        let max_zoom: Double = Double::from_u64(self.config.max_zoom as u64);
        if new_zoom.is_below(&self.min_zoom) {
            self.zoom = self.min_zoom;
        } else if max_zoom.is_below(&new_zoom) {
            self.zoom = max_zoom;
        } else {
            self.zoom = new_zoom;
        }
        self.needs_redraw = true;
    }

    /// Set the zoom level to an absolute value (clamped to `[min_zoom, max_zoom]`).
    pub fn set_zoom(&mut self, zoom: Double)
        requires
            old(self).min_zoom.at_most(double_of(old(self).config@.max_zoom as int)),
        ensures
            final(self).same_map(old(self)),
            final(self).view_model() == old(self).view_model().zoomed(
                zoom,
                old(self).config@.max_zoom,
            ),
    {
        let max_zoom: Double = Double::from_u64(self.config.max_zoom as u64);
        self.zoom = zoom.clamp(&self.min_zoom, &max_zoom);
        self.needs_redraw = true;
    }

    /// Zoom to `new_zoom`, which is the zoom level plus a step, anchored at a
    /// position on the screen. Returns whether the zoom level changed, so that
    /// the center has to be set anew to keep the position in place.
    pub fn zoom_at(&mut self, new_zoom: Double) -> (r: bool)
        ensures
            final(self).same_map(old(self)),
            final(self).view_model() == old(self).view_model().zoomed(
                new_zoom,
                old(self).config@.max_zoom,
            ),
            r == !final(self).zoom.near(old(self).zoom),
    {
        let old_zoom: Double = self.zoom;
        self.zoom_by(new_zoom);
        !self.zoom.is_near(&old_zoom)
    }

    // -- Drag --------------------------------------------------------------

    /// Begin a drag gesture at the given terminal cell position.
    pub fn drag_start(&mut self, col: Double, row: Double)
        ensures
            final(self).same_map(old(self)),
            final(self).view_model() == (ViewModel {
                drag_anchor: Some(
                    DragAnchor { col, row, lat: old(self).center_lat, lon: old(self).center_lon },
                ),
                ..old(self).view_model()
            }),
    {
        self.drag_anchor = Some(
            DragAnchor { col, row, lat: self.center_lat, lon: self.center_lon },
        );
    }

    /// Move the map to the center that keeps the point under the drag anchor
    /// under the pointer.
    ///
    /// Returns `false` if no drag is active.
    pub fn drag_to(&mut self, lat: Double, lon: Double) -> (r: bool)
        ensures
            final(self).same_map(old(self)),
            r == old(self).drag_anchor is Some,
            final(self).view_model() == if r {
                old(self).view_model().centered(lat, lon)
            } else {
                old(self).view_model()
            },
    {
        if self.drag_anchor.is_none() {
            return false;
        }
        self.set_center(lat, lon);
        true
    }

    /// End the current drag gesture. Returns `true` if a drag was active.
    pub fn drag_end(&mut self) -> (r: bool)
        ensures
            final(self).same_map(old(self)),
            r == old(self).drag_anchor is Some,
            final(self).view_model() == (ViewModel {
                drag_anchor: None,
                ..old(self).view_model()
            }),
    {
        let active: bool = self.drag_anchor.is_some();
        self.drag_anchor = None;
        active
    }

    // -- Focus -------------------------------------------------------------

    /// Set the center and zoom in a single call.
    pub fn focus_position(&mut self, lat: Double, lon: Double, zoom: Double)
        requires
            old(self).min_zoom.at_most(double_of(old(self).config@.max_zoom as int)),
        ensures
            final(self).same_map(old(self)),
            final(self).view_model() == old(self).view_model().centered(lat, lon).zoomed(
                zoom,
                old(self).config@.max_zoom,
            ),
    {
        self.set_center(lat, lon);
        self.set_zoom(zoom);
    }

    /// Fit the map to a geographic bounding box: its midpoint, and the zoom
    /// levels at which its width and its height fill the viewport.
    ///
    /// Without a viewport, the zoom level stays.
    pub fn focus_area(&mut self, lat: Double, lon: Double, zoom_lon: Double, zoom_lat: Double)
        requires
            old(self).renderer.width == 0 || old(self).renderer.height == 0 || old(
                self,
            ).min_zoom.at_most(double_of(old(self).config@.max_zoom as int)),
        ensures
            final(self).same_map(old(self)),
            final(self).view_model() == if old(self).renderer.width == 0
                || old(self).renderer.height == 0 {
                old(self).view_model().centered(lat, lon)
            } else {
                old(self).view_model().centered(lat, lon).zoomed(
                    zoom_lon.lesser(zoom_lat),
                    old(self).config@.max_zoom,
                )
            },
    {
        self.set_center(lat, lon);
        if self.renderer.width == 0 || self.renderer.height == 0 {
            return;
        }
        self.set_zoom(zoom_lon.min(&zoom_lat));
    }

    // -- Render size -------------------------------------------------------

    fn resize(&mut self, cols: u16, rows: u16, min_zoom: Double)
        requires
            old(self).wf(),
            is_drawable(cols, rows),
        ensures
            final(self).wf(),
            final(self).same_setup(old(self)),
            final(self).overlays == old(self).overlays,
            final(self).is_sized(cols, rows, old(self)),
            final(self).view_model() == old(self).view_model().resized(cols, rows, min_zoom),
    {
        let width: usize = cols as usize * 2;
        let height: usize = rows as usize * 4;
        proof {
            assert(cols * rows <= 0xffff * 0xffff) by (nonlinear_arith)
                requires
                    0 <= cols <= 0xffff,
                    0 <= rows <= 0xffff,
            ;
        }
        self.renderer.set_size(width, height);
        self.min_zoom = min_zoom;
        if self.zoom.is_below(&min_zoom) {
            self.zoom = min_zoom;
        }
        self.last_area = Some((cols, rows));
        self.needs_redraw = true;
    }

    /// Whether the canvas is a blank one for so many columns and rows: each
    /// terminal cell is 2 pixels wide and 4 pixels high.
    pub open spec fn is_sized(&self, cols: u16, rows: u16, before: &MapState) -> bool {
        &&& self.renderer.width == 2 * cols
        &&& self.renderer.height == 4 * rows
        &&& self.renderer.canvas@ == crate::braille_buffer::Grid::blank(
            (2 * cols) as nat,
            (4 * rows) as nat,
            0,
        )
        &&& self.renderer.label_buffer == before.renderer.label_buffer
        &&& self.renderer.styler == before.renderer.styler
        &&& self.renderer.config == before.renderer.config
    }

    /// Set the render area size in terminal cells (for embedded use).
    /// `min_zoom` is the zoom level at which the world is as wide as that.
    ///
    /// An area that is too small is ignored.
    pub fn set_render_size(&mut self, cols: u16, rows: u16, min_zoom: Double)
        requires
            old(self).wf(),
        ensures
            final(self).wf(),
            final(self).same_setup(old(self)),
            final(self).overlays == old(self).overlays,
            is_drawable(cols, rows) ==> final(self).is_sized(cols, rows, old(self))
                && final(self).view_model() == old(self).view_model().resized(
                cols,
                rows,
                min_zoom,
            ),
            !is_drawable(cols, rows) ==> *final(self) == *old(self),
    {
        if cols < 2 || rows < 1 {
            return;
        }
        self.resize(cols, rows, min_zoom);
    }

    /// Update the renderer size from an area of the terminal. Returns `true` if
    /// the size changed.
    pub fn update_size(&mut self, cols: u16, rows: u16, min_zoom: Double) -> (r: bool)
        requires
            old(self).wf(),
        ensures
            final(self).wf(),
            final(self).same_setup(old(self)),
            final(self).overlays == old(self).overlays,
            r == (old(self).last_area != Some((cols, rows)) && is_drawable(cols, rows)),
            r ==> final(self).is_sized(cols, rows, old(self)) && final(self).view_model()
                == old(self).view_model().resized(cols, rows, min_zoom),
            !r ==> *final(self) == *old(self),
    {
        let same: bool = match self.last_area {
            Some((c, r)) => c == cols && r == rows,
            None => false,
        };
        if same || cols < 2 || rows < 1 {
            return false;
        }
        self.resize(cols, rows, min_zoom);
        true
    }

    /// Toggle between Braille and ASCII rendering.
    pub fn toggle_braille(&mut self)
        ensures
            final(self).same_map(old(self)),
            final(self).view_model() == old(self).view_model().toggled(),
    {
        self.use_braille = !self.use_braille;
        self.needs_redraw = true;
    }

    /// Ask for a redraw.
    pub fn request_redraw(&mut self)
        ensures
            final(self).same_map(old(self)),
            final(self).view_model() == (ViewModel {
                needs_redraw: true,
                ..old(self).view_model()
            }),
    {
        self.needs_redraw = true;
    }

    // -- Overlays ----------------------------------------------------------

    /// Whether another state differs from this one in its overlays and in
    /// asking for a redraw.
    pub open spec fn same_but_overlays(&self, other: &MapState) -> bool {
        &&& self.same_setup(other)
        &&& self.renderer == other.renderer
        &&& self.view_model() == (ViewModel { needs_redraw: true, ..other.view_model() })
    }

    /// Add a marker at a position.
    pub fn add_marker(
        &mut self,
        ids: &mut IdSource,
        pos: LatLon,
        label: Option<String>,
        color: ColorIdx,
    ) -> (r: OverlayId)
        ensures
            final(self).same_but_overlays(old(self)),
            r == old(ids).next,
            final(ids).next == id_after(old(ids).next),
            final(self).overlays@ == old(self).overlays@.push(
                marker_overlay(r, pos, text_model(label), color),
            ),
    {
        self.needs_redraw = true;
        self.overlays.add_marker(ids, pos, label, color)
    }

    /// Add a polyline.
    pub fn add_line(
        &mut self,
        ids: &mut IdSource,
        points: Vec<LatLon>,
        color: ColorIdx,
        line_width: Double,
    ) -> (r: OverlayId)
        ensures
            final(self).same_but_overlays(old(self)),
            r == old(ids).next,
            final(ids).next == id_after(old(ids).next),
            final(self).overlays@ == old(self).overlays@.push(
                line_overlay(r, points@, color, line_width),
            ),
    {
        self.needs_redraw = true;
        self.overlays.add_line(ids, points, color, line_width)
    }

    /// Add a filled area: opaque, without an outline.
    pub fn add_area(&mut self, ids: &mut IdSource, points: Vec<LatLon>, color: ColorIdx) -> (r:
        OverlayId)
        ensures
            final(self).same_but_overlays(old(self)),
            r == old(ids).next,
            final(ids).next == id_after(old(ids).next),
            final(self).overlays@ == old(self).overlays@.push(
                area_overlay(
                    r,
                    KindModel::Area(points@),
                    Some(color),
                    None,
                    Double { bits: ONE },
                ),
            ),
    {
        self.needs_redraw = true;
        self.overlays.add_area(ids, points, Some(color), None, Double::from_bits(ONE))
    }

    /// Add a GeoJSON layer: its areas are opaque and without outlines.
    pub fn add_geojson_layer(&mut self, ids: &mut IdSource, geojson_str: &str, color: ColorIdx)
        -> (r: Result<OverlayId, String>)
        ensures
            final(self).same_but_overlays(old(self)),
            match parsed_geojson(geojson_str@) {
                Ok(document) => if document_shapes(document).len() > 0 {
                    r matches Ok(id) && id == old(ids).next && final(self).overlays@ == old(
                        self
                    ).overlays@.push(
                        area_overlay(
                            id,
                            KindModel::GeoJson(document_shapes(document)),
                            Some(color),
                            None,
                            Double { bits: ONE },
                        ),
                    ) && final(ids).next == id_after(old(ids).next)
                } else {
                    r matches Err(e) && e@ == "no geometries found in GeoJSON"@
                        && final(self).overlays@ == old(self).overlays@ && final(ids).next
                        == old(ids).next
                },
                Err(words) => r matches Err(e) && e@ == words && final(self).overlays@
                    == old(self).overlays@ && final(ids).next == old(ids).next,
            },
    {
        self.needs_redraw = true;
        self.overlays.add_geojson_layer(
            ids,
            geojson_str,
            Some(color),
            None,
            Double::from_bits(ONE),
        )
    }

    /// Remove an overlay by ID.
    pub fn remove_overlay(&mut self, id: OverlayId) -> (r: bool)
        ensures
            r == has_id(old(self).overlays@, id),
            final(self).overlays@ == without(old(self).overlays@, id),
            final(self).same_setup(old(self)),
            final(self).renderer == old(self).renderer,
            final(self).view_model() == (ViewModel {
                needs_redraw: r || old(self).needs_redraw,
                ..old(self).view_model()
            }),
    {
        let removed: bool = self.overlays.remove(id);
        if removed {
            self.needs_redraw = true;
        }
        removed
    }

    /// Remove all overlays.
    pub fn clear_overlays(&mut self)
        ensures
            final(self).same_but_overlays(old(self)),
            final(self).overlays@ == Seq::<OverlayModel>::empty(),
    {
        self.overlays.clear();
        self.needs_redraw = true;
    }
}

// -- Laws ------------------------------------------------------------------

/// Whatever zoom level is asked for, the one that is set is within the limits.
pub proof fn law_zoom_stays_within_limits(view: ViewModel, zoom: Double, max_zoom: u8)
    requires
        !zoom.nan(),
        view.min_zoom.at_most(double_of(max_zoom as int)),
    ensures
        view.min_zoom.at_most(view.zoomed(zoom, max_zoom).zoom),
        view.zoomed(zoom, max_zoom).zoom.at_most(double_of(max_zoom as int)),
{
}

/// Toggling twice gives back the way of rendering, and touches nothing else.
pub proof fn law_toggling_twice_changes_nothing(view: ViewModel)
    ensures
        view.toggled().toggled() == (ViewModel { needs_redraw: true, ..view }),
{
}

/// Zooming by itself leaves the center where it is, and asks for a redraw.
pub proof fn law_zooming_keeps_the_center(view: ViewModel, zoom: Double, max_zoom: u8)
    ensures
        view.zoomed(zoom, max_zoom).center_lat == view.center_lat,
        view.zoomed(zoom, max_zoom).center_lon == view.center_lon,
        view.zoomed(zoom, max_zoom).needs_redraw,
{
}

/// After a resize the zoom level is no less than the least one.
pub proof fn law_resizing_keeps_the_least_zoom(
    view: ViewModel,
    cols: u16,
    rows: u16,
    min_zoom: Double,
)
    requires
        !view.zoom.nan(),
        !min_zoom.nan(),
    ensures
        min_zoom.at_most(view.resized(cols, rows, min_zoom).zoom),
{
}

/// Wherever the map is moved, its center is within the limits of latitude and
/// longitude.
pub proof fn law_center_stays_within_limits(view: ViewModel, lat: Double, lon: Double)
    requires
        !lat.nan(),
        lon.finite(),
    ensures
        (Double { bits: crate::utils::WEST_LIMIT }).at_most(view.centered(lat, lon).center_lon),
        view.centered(lat, lon).center_lon.at_most(Double { bits: crate::utils::EAST_LIMIT }),
        (Double { bits: crate::utils::SOUTH_LIMIT }).at_most(view.centered(lat, lon).center_lat),
        view.centered(lat, lon).center_lat.at_most(Double { bits: crate::utils::NORTH_LIMIT }),
{
    crate::utils::law_latitudes_stay_within_limits(lat);
    crate::utils::law_longitudes_wrap(lon);
}

/// Setting a center within the limits of the map puts its latitude and its
/// longitude in place and touches nothing else of the view. One beyond the
/// limits of latitude stops at the limit; one beyond half a turn comes to the
/// same meridian.
pub proof fn law_center_goes_where_it_is_set(
    before: MapState,
    after: MapState,
    lat: Double,
    lon: Double,
)
    requires
        after.view_model() == before.view_model().centered(lat, lon),
        !lat.nan(),
        lon.finite(),
    ensures
        ({
            let north = Double { bits: crate::utils::NORTH_LIMIT };
            &&& -north.value() <= lat.value() <= north.value() ==> after.center_lat == lat
            &&& lat.value() > north.value() ==> after.center_lat.value() == north.value()
            &&& lat.value() < -north.value() ==> after.center_lat.value() == -north.value()
        }),
        -180 * one() <= lon.value() <= 180 * one() ==> after.center_lon == lon,
        -180 * one() <= after.center_lon.value() <= 180 * one(),
        (after.center_lon.value() - lon.value()) % (360 * one()) == 0,
        after.zoom == before.zoom,
        after.min_zoom == before.min_zoom,
        after.use_braille == before.use_braille,
        after.last_area == before.last_area,
        after.drag_anchor == before.drag_anchor,
        after.needs_redraw,
{
    crate::utils::law_limits_of_the_map();
    crate::utils::law_latitudes_beyond_a_limit_stop_there(lat);
    crate::utils::law_longitudes_wrap(lon);
    crate::double::lemma_one();
    assert(2 * crate::utils::half_turn() == 360 * one());
    assert(!(Double { bits: crate::utils::WEST_LIMIT }).nan());
    assert(!(Double { bits: crate::utils::EAST_LIMIT }).nan());
}

/// A zoom level within the limits is set as it is, one beyond them becomes the
/// limit that it is beyond; nothing else of the view changes.
pub proof fn law_zoom_goes_where_it_is_set(
    before: MapState,
    after: MapState,
    zoom: Double,
    max_zoom: u8,
)
    requires
        after.view_model() == before.view_model().zoomed(zoom, max_zoom),
        !zoom.nan(),
        !before.min_zoom.nan(),
        before.min_zoom.value() <= max_zoom * one(),
    ensures
        before.min_zoom.value() <= zoom.value() <= max_zoom * one() ==> after.zoom == zoom,
        zoom.value() > max_zoom * one() ==> after.zoom.value() == max_zoom * one(),
        zoom.value() < before.min_zoom.value() ==> after.zoom == before.min_zoom,
        after.center_lat == before.center_lat,
        after.center_lon == before.center_lon,
        after.min_zoom == before.min_zoom,
        after.use_braille == before.use_braille,
        after.last_area == before.last_area,
        after.drag_anchor == before.drag_anchor,
        after.needs_redraw,
{
    crate::arithmetic::lemma_whole_double(max_zoom as nat);
}

/// A resize keeps the size as columns and rows, takes the new least zoom level,
/// and changes the zoom level only where it is below that; the center stays.
pub proof fn law_resizing_keeps_the_rest(
    before: MapState,
    after: MapState,
    cols: u16,
    rows: u16,
    min_zoom: Double,
)
    requires
        after.view_model() == before.view_model().resized(cols, rows, min_zoom),
        !before.zoom.nan(),
        !min_zoom.nan(),
    ensures
        after.last_area == Some((cols, rows)),
        after.min_zoom == min_zoom,
        before.zoom.value() >= min_zoom.value() ==> after.zoom == before.zoom,
        before.zoom.value() < min_zoom.value() ==> after.zoom == min_zoom,
        after.center_lat == before.center_lat,
        after.center_lon == before.center_lon,
        after.use_braille == before.use_braille,
        after.drag_anchor == before.drag_anchor,
        after.needs_redraw,
{
}

/// Toggling leaves center and zoom level where they are and turns the way of
/// rendering into the other one.
pub proof fn law_toggling_turns_the_rendering(before: MapState, after: MapState)
    requires
        after.view_model() == before.view_model().toggled(),
    ensures
        after.use_braille == !before.use_braille,
        after.center_lat == before.center_lat,
        after.center_lon == before.center_lon,
        after.zoom == before.zoom,
        after.min_zoom == before.min_zoom,
        after.needs_redraw,
{
}

/// A box is fitted at the zoom level at which both its width and its height have
/// room: the lesser of the two.
pub proof fn law_boxes_are_fitted_both_ways(zoom_lon: Double, zoom_lat: Double)
    requires
        !zoom_lon.nan(),
        !zoom_lat.nan(),
    ensures
        zoom_lon.lesser(zoom_lat).value() <= zoom_lon.value(),
        zoom_lon.lesser(zoom_lat).value() <= zoom_lat.value(),
        zoom_lon.lesser(zoom_lat) == zoom_lon || zoom_lon.lesser(zoom_lat) == zoom_lat,
{
}

/// A viewport can be drawn in from two columns and one row on.
pub proof fn law_two_columns_and_a_row_suffice(cols: u16, rows: u16)
    ensures
        is_drawable(cols, rows) <==> cols >= 2 && rows >= 1,
{
}

/// Two states with the same map have the same configuration, tiles, style,
/// renderer and overlays; two that differ in their overlays alone the same of all
/// but these.
pub proof fn law_same_maps_have_the_same_parts(a: MapState, b: MapState)
    ensures
        a.same_map(&b) <==> a.config == b.config && a.tile_source == b.tile_source && a.styler
            == b.styler && a.renderer == b.renderer && a.overlays == b.overlays,
        a.same_but_overlays(&b) ==> a.config == b.config && a.tile_source == b.tile_source
            && a.styler == b.styler && a.renderer == b.renderer && a.center_lat == b.center_lat
            && a.center_lon == b.center_lon && a.zoom == b.zoom && a.min_zoom == b.min_zoom
            && a.use_braille == b.use_braille && a.last_area == b.last_area && a.drag_anchor
            == b.drag_anchor && a.needs_redraw,
{
}

/// A new state shows the initial place of its configuration, at the initial zoom
/// level or at 0, in the way of rendering that it asks for, without overlays.
pub proof fn law_new_states_start_where_they_are_told(state: MapState, config: Arc<MapConfig>)
    requires
        state.is_new(config),
    ensures
        state.center_lat == config.initial_lat,
        state.center_lon == config.initial_lon,
        config.initial_zoom matches Some(z) ==> state.zoom == z,
        config.initial_zoom is None ==> state.zoom.value() == 0,
        state.min_zoom.value() == 0,
        state.use_braille == config.use_braille,
        state.overlays@.len() == 0,
        state.needs_redraw,
        state.drag_anchor is None,
        state.last_area is None,
        state.tile_source.persist == config.persist_downloaded_tiles,
{
    crate::double::law_patterns_stand_for_numbers(false, 0, 0, Double { bits: 0 });
}

/// A cell of the terminal is two pixels wide and four high.
pub proof fn law_cells_have_eight_pixels(
    state: MapState,
    before: MapState,
    cols: u16,
    rows: u16,
)
    requires
        state.is_sized(cols, rows, &before),
    ensures
        state.renderer.width == 2 * cols,
        state.renderer.height == 4 * rows,
        state.renderer.canvas@.width == 2 * cols,
        state.renderer.canvas@.height == 4 * rows,
{
}

// -- Widget ----------------------------------------------------------------

/// A lightweight widget that renders the map.
#[derive(Debug, Clone, Copy)]
pub struct MapWidget;

impl MapWidget {
    pub fn new() -> (r: Self)
        ensures
            r == MapWidget,
    {
        MapWidget
    }

    /// What the widget shows in an area of the terminal: the cells of the canvas
    /// that are drawn. The actual drawing was done before. `min_zoom` is the
    /// zoom level at which the world is as wide as the area.
    pub fn render(self, cols: u16, rows: u16, min_zoom: Double, state: &mut MapState) -> (r: Vec<
        CellDraw,
    >)
        requires
            old(state).wf(),
        ensures
            final(state).wf(),
            final(state).same_setup(old(state)),
            final(state).overlays == old(state).overlays,
            !is_drawable(cols, rows) ==> *final(state) == *old(state) && r@.len() == 0,
            is_drawable(cols, rows) ==> {
                let sized = old(state).last_area == Some((cols, rows));
                let view = if sized {
                    old(state).view_model()
                } else {
                    old(state).view_model().resized(cols, rows, min_zoom)
                };
                let grid = final(state).renderer.canvas@;
                &&& sized ==> final(state).renderer == old(state).renderer
                &&& !sized ==> final(state).is_sized(cols, rows, old(state))
                &&& final(state).view_model() == (ViewModel { needs_redraw: false, ..view })
                &&& cell_views(r@) == grid.render_rows(
                    least(grid.rows() as int, rows as int) as nat,
                    least(grid.cols() as int, cols as int) as nat,
                    old(state).use_braille,
                )
            },
    {
        if cols < 2 || rows < 1 {
            return Vec::new();
        }
        state.update_size(cols, rows, min_zoom);
        let cells: Vec<CellDraw> = state.renderer.canvas.buffer.render_cells(
            cols,
            rows,
            state.use_braille,
        );
        state.needs_redraw = false;
        cells
    }
}

impl Default for MapWidget {
    fn default() -> (r: Self)
        ensures
            r == MapWidget,
    {
        MapWidget::new()
    }
}

} // verus!
