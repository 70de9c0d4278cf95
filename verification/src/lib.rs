//! A Braille & ASCII map renderer for terminals.

use vstd::prelude::*;

pub mod arithmetic;
pub mod braille_buffer;
pub mod bridge;
pub mod canvas;
pub mod config;
pub mod double;
pub mod drawing;
pub mod fill;
pub mod geo;
pub mod input;
pub mod json;
pub mod label_buffer;
pub mod order;
pub mod overlay;
pub mod renderer;
pub mod simplify;
pub mod spatial;
pub mod style_data;
pub mod styler;
pub mod text;
pub mod tile;
pub mod tile_source;
pub mod utils;
pub mod widget;

// Primary public API types
pub use config::MapConfig;
pub use geo::LatLon;
pub use overlay::{Overlay, OverlayCollection, OverlayId, OverlayKind};
pub use widget::{MapState, MapWidget};

// Commonly used types of submodules
pub use braille_buffer::ColorIdx;
pub use double::Double;
pub use renderer::Renderer;
pub use styler::Styler;
pub use tile_source::{TileKey, TileSource};

verus! {

}
