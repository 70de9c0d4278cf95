//! Map configuration with sensible defaults.
//!
//! `MapConfig` is an immutable configuration object. Use the builder-style
//! methods (`with_*`) to customize it before handing it on.

use crate::double::Double;
use crate::style_data::dark_style;
use crate::text::text_eq;
use vstd::prelude::*;

verus! {

/// Configuration for per-layer behavior (label margins, clustering).
#[derive(Debug, Clone, Copy)]
pub struct LayerConfig {
    /// Margin (in characters) for label collision.
    pub margin: Option<u32>,
    /// Whether to cluster overlapping labels.
    pub cluster: bool,
}

impl Default for LayerConfig {
    fn default() -> (r: Self)
        ensures
            r.margin is None,
            !r.cluster,
    {
        LayerConfig { margin: None, cluster: false }
    }
}

/// The bits of 52.51298.
pub const BERLIN_LAT: u64 = 0x404a_41a9_5421_c044;

/// The bits of 13.42012.
pub const BERLIN_LON: u64 = 0x402a_d719_f7f8_ca82;

/// The bits of 0.2.
pub const ZOOM_STEP: u64 = 0x3fc9_9999_9999_999a;

/// Immutable map configuration. Construct with `MapConfig::default()` and
/// customize with builder methods.
#[derive(Debug)]
pub struct MapConfig {
    /// Language code for labels (e.g. "en", "de", "ja").
    pub language: String,
    /// Tile source URL. Must end with `/`.
    /// Default: `"http://mapscii.me/"`
    pub source: String,
    /// Path to an `.mbtiles` file (alternative to HTTP source).
    pub mbtiles_path: Option<String>,
    /// Initial zoom level. `None` means auto-detect based on terminal size.
    pub initial_zoom: Option<Double>,
    /// Maximum allowed zoom level.
    pub max_zoom: u8,
    /// Zoom increment per scroll step.
    pub zoom_step: Double,
    /// Initial latitude (WGS-84).
    pub initial_lat: Double,
    /// Initial longitude (WGS-84).
    pub initial_lon: Double,
    /// Apply Ramer-Douglas-Peucker simplification to polylines.
    pub simplify_polylines: bool,
    /// Render using Braille characters (true) or ASCII blocks (false).
    pub use_braille: bool,
    /// Persist downloaded tiles to disk.
    pub persist_downloaded_tiles: bool,
    /// The base tile range (number of zoom levels for tile indexing).
    pub tile_range: u8,
    /// Internal projection size (pixels per tile at base zoom).
    pub project_size: u32,
    /// Default label margin in characters.
    pub label_margin: u32,
    /// Per-layer configuration overrides; of two for one layer the later one
    /// counts.
    pub layers: Vec<(String, LayerConfig)>,
    /// Marker character for POIs.
    pub poi_marker: char,
    /// The style JSON.
    pub style_json: String,
    /// Number of parsed tiles to keep in memory cache.
    /// Each tile is approximately 100-200KB parsed.
    /// Default: 256 tiles (~25-50MB RAM).
    pub tile_cache_size: usize,
}

/// What a [`MapConfig`] says.
#[verifier::ext_equal]
pub struct ConfigModel {
    pub language: Seq<char>,
    pub source: Seq<char>,
    pub mbtiles_path: Option<Seq<char>>,
    pub initial_zoom: Option<Double>,
    pub max_zoom: u8,
    pub zoom_step: Double,
    pub initial_lat: Double,
    pub initial_lon: Double,
    pub simplify_polylines: bool,
    pub use_braille: bool,
    pub persist_downloaded_tiles: bool,
    pub tile_range: u8,
    pub project_size: u32,
    pub label_margin: u32,
    pub layers: Seq<(Seq<char>, LayerConfig)>,
    pub poi_marker: char,
    pub style_json: Seq<char>,
    pub tile_cache_size: usize,
}

/// The layer overrides of a list.
pub open spec fn layer_overrides(layers: Seq<(String, LayerConfig)>) -> Seq<
    (Seq<char>, LayerConfig),
> {
    Seq::new(layers.len(), |i: int| (layers[i].0@, layers[i].1))
}

impl View for MapConfig {
    type V = ConfigModel;

    open spec fn view(&self) -> ConfigModel {
        ConfigModel {
            language: self.language@,
            source: self.source@,
            mbtiles_path: crate::styler::text_model(self.mbtiles_path),
            initial_zoom: self.initial_zoom,
            max_zoom: self.max_zoom,
            zoom_step: self.zoom_step,
            initial_lat: self.initial_lat,
            initial_lon: self.initial_lon,
            simplify_polylines: self.simplify_polylines,
            use_braille: self.use_braille,
            persist_downloaded_tiles: self.persist_downloaded_tiles,
            tile_range: self.tile_range,
            project_size: self.project_size,
            label_margin: self.label_margin,
            layers: layer_overrides(self.layers@),
            poi_marker: self.poi_marker,
            style_json: self.style_json@,
            tile_cache_size: self.tile_cache_size,
        }
    }
}

/// The default configuration.
pub open spec fn default_config() -> ConfigModel {
    ConfigModel {
        language: "en"@,
        source: "http://mapscii.me/"@,
        mbtiles_path: None,
        initial_zoom: None,
        max_zoom: 18,
        zoom_step: Double { bits: ZOOM_STEP },
        initial_lat: Double { bits: BERLIN_LAT },
        initial_lon: Double { bits: BERLIN_LON },
        simplify_polylines: false,
        use_braille: true,
        persist_downloaded_tiles: true,
        tile_range: 14,
        project_size: 256,
        label_margin: 5,
        layers: seq![
            ("housenum_label"@, LayerConfig { margin: Some(4), cluster: false }),
            ("poi_label"@, LayerConfig { margin: Some(5), cluster: true }),
            ("place_label"@, LayerConfig { margin: None, cluster: true }),
            ("state_label"@, LayerConfig { margin: None, cluster: true }),
        ],
        poi_marker: '\u{25c9}',
        style_json: crate::style_data::DARK_STYLE@,
        tile_cache_size: 256,
    }
}

impl Default for MapConfig {
    fn default() -> (r: Self)
        ensures
            r@ == default_config(),
    {
        let mut layers: Vec<(String, LayerConfig)> = Vec::new();
        layers.push(
            ("housenum_label".to_string(), LayerConfig { margin: Some(4), cluster: false }),
        );
        layers.push(("poi_label".to_string(), LayerConfig { margin: Some(5), cluster: true }));
        layers.push(("place_label".to_string(), LayerConfig { margin: None, cluster: true }));
        layers.push(("state_label".to_string(), LayerConfig { margin: None, cluster: true }));
        let r: MapConfig = MapConfig {
            language: "en".to_string(),
            source: "http://mapscii.me/".to_string(),
            mbtiles_path: None,
            initial_zoom: None,
            max_zoom: 18,
            zoom_step: Double { bits: ZOOM_STEP },
            initial_lat: Double { bits: BERLIN_LAT },
            initial_lon: Double { bits: BERLIN_LON },
            simplify_polylines: false,
            use_braille: true,
            persist_downloaded_tiles: true,
            tile_range: 14,
            project_size: 256,
            label_margin: 5,
            layers,
            poi_marker: '\u{25c9}',
            style_json: dark_style(),
            tile_cache_size: 256,
        };
        assert(r@.layers =~= default_config().layers);
        r
    }
}

impl MapConfig {
    /// Create a new config with default settings.
    pub fn new() -> (r: Self)
        ensures
            r@ == default_config(),
    {
        Self::default()
    }

    /// Set the tile source URL.
    pub fn with_source(self, source: String) -> (r: Self)
        ensures
            r@ == (ConfigModel { source: source@, ..self@ }),
    {
        let mut config: MapConfig = self;
        config.source = source;
        config
    }

    /// Set the MBTiles file path (overrides HTTP source).
    pub fn with_mbtiles(self, path: String) -> (r: Self)
        ensures
            r@ == (ConfigModel { mbtiles_path: Some(path@), ..self@ }),
    {
        let mut config: MapConfig = self;
        config.mbtiles_path = Some(path);
        config
    }

    /// Set the initial center position.
    pub fn with_center(self, lat: Double, lon: Double) -> (r: Self)
        ensures
            r@ == (ConfigModel { initial_lat: lat, initial_lon: lon, ..self@ }),
    {
        let mut config: MapConfig = self;
        config.initial_lat = lat;
        config.initial_lon = lon;
        config
    }

    /// Set the initial zoom level.
    pub fn with_zoom(self, zoom: Double) -> (r: Self)
        ensures
            r@ == (ConfigModel { initial_zoom: Some(zoom), ..self@ }),
    {
        let mut config: MapConfig = self;
        config.initial_zoom = Some(zoom);
        config
    }

    /// Set the maximum zoom level.
    pub fn with_max_zoom(self, max_zoom: u8) -> (r: Self)
        ensures
            r@ == (ConfigModel { max_zoom, ..self@ }),
    {
        let mut config: MapConfig = self;
        config.max_zoom = max_zoom;
        config
    }

    /// Set zoom step (increment per scroll).
    pub fn with_zoom_step(self, step: Double) -> (r: Self)
        ensures
            r@ == (ConfigModel { zoom_step: step, ..self@ }),
    {
        let mut config: MapConfig = self;
        config.zoom_step = step;
        config
    }

    /// Set the display language for labels.
    pub fn with_language(self, lang: String) -> (r: Self)
        ensures
            r@ == (ConfigModel { language: lang@, ..self@ }),
    {
        let mut config: MapConfig = self;
        config.language = lang;
        config
    }

    /// Enable or disable Braille rendering.
    pub fn with_braille(self, enabled: bool) -> (r: Self)
        ensures
            r@ == (ConfigModel { use_braille: enabled, ..self@ }),
    {
        let mut config: MapConfig = self;
        config.use_braille = enabled;
        config
    }

    /// Enable or disable tile persistence to disk.
    pub fn with_tile_persistence(self, enabled: bool) -> (r: Self)
        ensures
            r@ == (ConfigModel { persist_downloaded_tiles: enabled, ..self@ }),
    {
        let mut config: MapConfig = self;
        config.persist_downloaded_tiles = enabled;
        config
    }

    /// Set the tile cache size (number of parsed tiles in memory).
    pub fn with_tile_cache_size(self, size: usize) -> (r: Self)
        ensures
            r@ == (ConfigModel { tile_cache_size: size, ..self@ }),
    {
        let mut config: MapConfig = self;
        config.tile_cache_size = size;
        config
    }

    /// The overrides for a layer.
    pub fn layer(&self, name: &str) -> (r: Option<LayerConfig>)
        ensures
            r == layer_override(self@.layers, name@),
    {
        let ghost all = layer_overrides(self.layers@);
        let mut i: usize = self.layers.len();
        assert(all.take(i as int) =~= all);
        while i > 0
            invariant
                i <= self.layers@.len(),
                all == layer_overrides(self.layers@),
                layer_override(all, name@) == layer_override(all.take(i as int), name@),
            decreases i,
        {
            assert(all.take(i as int).drop_last() =~= all.take(i - 1));
            i = i - 1;
            if text_eq(self.layers[i].0.as_str(), name) {
                return Some(self.layers[i].1);
            }
        }
        None
    }
}

/// The overrides for a layer: the last entry with its name.
pub open spec fn layer_override(layers: Seq<(Seq<char>, LayerConfig)>, name: Seq<char>) -> Option<
    LayerConfig,
>
    decreases layers.len(),
{
    if layers.len() == 0 {
        None
    } else if layers.last().0 == name {
        Some(layers.last().1)
    } else {
        layer_override(layers.drop_last(), name)
    }
}

/// A layer has the overrides of the last entry with its name, and none where no
/// entry has it.
pub proof fn law_last_override_counts(
    layers: Seq<(Seq<char>, LayerConfig)>,
    i: int,
    name: Seq<char>,
)
    ensures
        0 <= i < layers.len() && layers[i].0 == name && (forall|k: int|
            i < k < layers.len() ==> (#[trigger] layers[k]).0 != name) ==> layer_override(
            layers,
            name,
        ) == Some(layers[i].1),
        (forall|k: int| 0 <= k < layers.len() ==> (#[trigger] layers[k]).0 != name)
            ==> layer_override(layers, name) is None,
    decreases layers.len(),
{
    if layers.len() > 0 {
        let rest = layers.drop_last();
        assert(layers.last() == layers[layers.len() - 1]);
        assert forall|k: int| 0 <= k < rest.len() implies #[trigger] rest[k] == layers[k] by {}
        law_last_override_counts(rest, i, name);
    }
}

/// A configuration says what its fields hold, each under its own name.
pub proof fn law_config_models_show_configs(config: MapConfig, i: int)
    ensures
        config@.language == config.language@,
        config@.source == config.source@,
        config.mbtiles_path matches Some(path) ==> config@.mbtiles_path == Some(path@),
        config.mbtiles_path is None ==> config@.mbtiles_path is None,
        config@.initial_zoom == config.initial_zoom,
        config@.max_zoom == config.max_zoom,
        config@.zoom_step == config.zoom_step,
        config@.initial_lat == config.initial_lat,
        config@.initial_lon == config.initial_lon,
        config@.simplify_polylines == config.simplify_polylines,
        config@.use_braille == config.use_braille,
        config@.persist_downloaded_tiles == config.persist_downloaded_tiles,
        config@.tile_range == config.tile_range,
        config@.project_size == config.project_size,
        config@.label_margin == config.label_margin,
        config@.layers.len() == config.layers@.len(),
        0 <= i < config.layers@.len() ==> config@.layers[i] == (
            config.layers@[i].0@,
            config.layers@[i].1,
        ),
        config@.poi_marker == config.poi_marker,
        config@.style_json == config.style_json@,
        config@.tile_cache_size == config.tile_cache_size,
{
}

} // verus!
