//! Tests of the map state and the widget.

use mapscii::config::MapConfig;
use mapscii::double::Double;
use mapscii::geo::LatLon;
use mapscii::overlay::IdSource;
use mapscii::styler::StyleError;
use mapscii::utils::{base_zoom, normalize};
use mapscii::widget::{MapState, MapWidget};
use std::sync::Arc;

fn d(x: f64) -> Double {
    Double::from_bits(x.to_bits())
}

fn f(x: Double) -> f64 {
    f64::from_bits(x.bits)
}

fn min_zoom(cols: u16) -> Double {
    let width = cols as f64 * 2.0;
    d(4.0 - (4096.0 / width).ln() / std::f64::consts::LN_2)
}

fn test_config() -> Arc<MapConfig> {
    Arc::new(MapConfig::default())
}

fn new_state() -> MapState {
    MapState::new(test_config(), None).ok().unwrap()
}

fn tile_size(zoom: f64, config: &MapConfig) -> f64 {
    config.project_size as f64 * 2.0_f64.powf(zoom - base_zoom(d(zoom), config) as f64)
}

fn ll2tile(lon: f64, lat: f64, zoom: f64) -> (f64, f64) {
    let n = 2.0_f64.powf(zoom);
    let lat_rad = lat * std::f64::consts::PI / 180.0;
    (
        (lon + 180.0) / 360.0 * n,
        (1.0 - (lat_rad.tan() + 1.0 / lat_rad.cos()).ln() / std::f64::consts::PI) / 2.0 * n,
    )
}

fn tile2ll(x: f64, y: f64, zoom: f64) -> (f64, f64) {
    let n = std::f64::consts::PI - 2.0 * std::f64::consts::PI * y / 2.0_f64.powf(zoom);
    let lon = x / 2.0_f64.powf(zoom) * 360.0 - 180.0;
    let lat = 180.0 / std::f64::consts::PI * (0.5 * (n.exp() - (-n).exp())).atan();
    (lon, lat)
}

fn colrow_to_ll(state: &MapState, col: f64, row: f64) -> (f64, f64) {
    let dx = (col - 0.5) * 2.0 - state.renderer.width as f64 / 2.0;
    let dy = (row - 0.5) * 4.0 - state.renderer.height as f64 / 2.0;
    let zoom = f(state.zoom);
    let size = tile_size(zoom, &state.config);
    let z = base_zoom(state.zoom, &state.config) as f64;
    let (x, y) = ll2tile(f(state.center_lon), f(state.center_lat), z);
    let (lon, lat) = tile2ll(x + dx / size, y + dy / size, z);
    let (lon, lat) = normalize(d(lon), d(lat));
    (f(lat), f(lon))
}

fn zoom_at(state: &mut MapState, step: f64, col: f64, row: f64) {
    let (anchor_lat, anchor_lon) = colrow_to_ll(state, col, row);
    if state.zoom_at(d(f(state.zoom) + step)) {
        let dx = (col - 0.5) * 2.0 - state.renderer.width as f64 / 2.0;
        let dy = (row - 0.5) * 4.0 - state.renderer.height as f64 / 2.0;
        let size = tile_size(f(state.zoom), &state.config);
        let z = base_zoom(state.zoom, &state.config) as f64;
        let (x, y) = ll2tile(anchor_lon, anchor_lat, z);
        let (lon, lat) = tile2ll(x - dx / size, y - dy / size, z);
        state.set_center(d(lat), d(lon));
    }
}

fn drag_to(state: &mut MapState, col: f64, row: f64) -> bool {
    let Some(anchor) = state.drag_anchor else {
        return state.drag_to(d(0.0), d(0.0));
    };
    let dx = (f(anchor.col) - col) * 2.0;
    let dy = (f(anchor.row) - row) * 4.0;
    let size = tile_size(f(state.zoom), &state.config);
    let z = base_zoom(state.zoom, &state.config) as f64;
    let (x, y) = ll2tile(f(anchor.lon), f(anchor.lat), z);
    let (lon, lat) = tile2ll(x + dx / size, y + dy / size, z);
    state.drag_to(d(lat), d(lon))
}

fn focus_area(state: &mut MapState, min_lat: f64, min_lon: f64, max_lat: f64, max_lon: f64) {
    let (w, h) = (state.renderer.width as f64, state.renderer.height as f64);
    let ps = state.config.project_size as f64;
    let lon_span = (max_lon - min_lon).abs().max(1e-6);
    let zoom_lon = (w * 360.0 / (lon_span * ps)).log2();
    let y_span = (ll2tile(0.0, min_lat, 0.0).1 - ll2tile(0.0, max_lat, 0.0).1).abs().max(1e-12);
    let zoom_lat = (h / (y_span * ps)).log2();
    state.focus_area(
        d((min_lat + max_lat) / 2.0),
        d((min_lon + max_lon) / 2.0),
        d(zoom_lon),
        d(zoom_lat),
    );
}

#[test]
fn test_map_state_creation() {
    let config = test_config();
    let state = MapState::new(config.clone(), None).ok().unwrap();
    assert_eq!(state.center_lat.bits, config.initial_lat.bits);
    assert_eq!(state.center_lon.bits, config.initial_lon.bits);
    assert!(state.needs_redraw);
}

#[test]
fn a_broken_style_is_refused() {
    let mut config = MapConfig::default();
    config.style_json = "{".to_string();
    assert!(matches!(MapState::new(Arc::new(config), None), Err(StyleError::Json(_))));
}

#[test]
fn test_map_state_set_center() {
    let mut state = new_state();
    state.set_center(d(48.8566), d(2.3522));
    assert!((f(state.center_lat) - 48.8566).abs() < 0.001);
    assert!((f(state.center_lon) - 2.3522).abs() < 0.001);
}

#[test]
fn test_map_state_move_by() {
    let mut state = new_state();
    let lat0 = f(state.center_lat);
    let lon0 = f(state.center_lon);
    state.move_by(d(lat0 + 1.0), d(lon0 + 2.0));
    assert!((f(state.center_lat) - (lat0 + 1.0)).abs() < 0.01);
    assert!((f(state.center_lon) - (lon0 + 2.0)).abs() < 0.01);
}

#[test]
fn test_map_state_zoom_by() {
    let mut state = new_state();
    state.zoom = d(5.0);
    state.zoom_by(d(5.0 + 1.0));
    assert!((f(state.zoom) - 6.0).abs() < 0.01);
}

#[test]
fn test_map_state_zoom_clamp_max() {
    let config = test_config();
    let mut state = new_state();
    state.zoom = d(config.max_zoom as f64);
    state.zoom_by(d(config.max_zoom as f64 + 10.0));
    assert_eq!(f(state.zoom), config.max_zoom as f64);
}

#[test]
fn test_map_state_toggle_braille() {
    let mut state = new_state();
    let initial = state.use_braille;
    state.toggle_braille();
    assert_ne!(state.use_braille, initial);
    state.toggle_braille();
    assert_eq!(state.use_braille, initial);
}

#[test]
fn test_map_state_overlays() {
    let mut ids = IdSource::new();
    let mut state = new_state();
    let pos = LatLon::new(d(52.5), d(13.4));
    let id = state.add_marker(&mut ids, pos, Some("Test".to_string()), 1);
    assert_eq!(state.overlays.len(), 1);
    assert!(state.remove_overlay(id));
    assert!(state.overlays.is_empty());
}

#[test]
fn test_map_widget_default() {
    let _ = MapWidget::default();
}

#[test]
fn test_map_state_with_builders() {
    let state = new_state().with_center(d(48.8), d(2.3)).with_zoom(d(10.0));
    assert!((f(state.center_lat) - 48.8).abs() < 0.01);
    assert!((f(state.center_lon) - 2.3).abs() < 0.01);
    assert!((f(state.zoom) - 10.0).abs() < 0.01);
}

#[test]
fn test_set_zoom() {
    let config = test_config();
    let mut state = new_state();
    state.set_zoom(d(10.0));
    assert!((f(state.zoom) - 10.0).abs() < 0.01);

    state.set_zoom(d(100.0));
    assert_eq!(f(state.zoom), config.max_zoom as f64);

    state.set_zoom(d(-5.0));
    assert_eq!(f(state.zoom), f(state.min_zoom));
}

#[test]
fn test_zoom_at() {
    let mut state = new_state();
    state.renderer.set_size(160, 80);
    state.zoom = d(5.0);
    state.last_area = Some((80, 20));

    let (lat_before, lon_before) = colrow_to_ll(&state, 20.0, 5.0);
    zoom_at(&mut state, 1.0, 20.0, 5.0);
    let (lat_after, lon_after) = colrow_to_ll(&state, 20.0, 5.0);

    assert!((lat_after - lat_before).abs() < 0.5);
    assert!((lon_after - lon_before).abs() < 0.5);
    assert_eq!(f(state.zoom), 6.0);
}

#[test]
fn zooming_at_the_limit_moves_nothing() {
    let mut state = new_state();
    state.zoom = d(18.0);
    let (lat, lon) = (state.center_lat.bits, state.center_lon.bits);
    assert!(!state.zoom_at(d(19.0)));
    assert_eq!((state.center_lat.bits, state.center_lon.bits), (lat, lon));
    assert!(state.needs_redraw);
}

#[test]
fn areas_can_be_focused_without_a_viewport() {
    let mut state = new_state();
    state.renderer.width = 0;
    state.min_zoom = d(99.0);
    let zoom = state.zoom.bits;
    state.focus_area(d(10.0), d(370.0), d(3.0), d(4.0));
    assert_eq!((f(state.center_lat), f(state.center_lon)), (10.0, 10.0));
    assert_eq!(state.zoom.bits, zoom);
}

#[test]
fn test_drag_lifecycle() {
    let mut state = new_state();
    state.renderer.set_size(160, 80);
    state.zoom = d(5.0);
    state.last_area = Some((80, 20));

    assert!(!drag_to(&mut state, 50.0, 15.0));
    assert!(!state.drag_end());

    let lat_before = f(state.center_lat);
    let lon_before = f(state.center_lon);

    state.drag_start(d(40.0), d(10.0));
    assert!(drag_to(&mut state, 50.0, 10.0));

    assert!(f(state.center_lon) != lon_before || f(state.center_lat) != lat_before);

    assert!(state.drag_end());
    assert!(!state.drag_end());
}

#[test]
fn test_focus_position() {
    let mut state = new_state();
    state.focus_position(d(35.6762), d(139.6503), d(8.0));
    assert!((f(state.center_lat) - 35.6762).abs() < 0.001);
    assert!((f(state.center_lon) - 139.6503).abs() < 0.001);
    assert!((f(state.zoom) - 8.0).abs() < 0.01);
}

#[test]
fn test_focus_area() {
    let mut state = new_state();
    state.renderer.set_size(160, 80);
    state.last_area = Some((80, 20));
    state.min_zoom = d(0.0);

    focus_area(&mut state, 48.0, 2.0, 53.0, 14.0);

    assert!((f(state.center_lat) - 50.5).abs() < 0.01);
    assert!((f(state.center_lon) - 8.0).abs() < 0.01);
    assert!(f(state.zoom) > 0.0);
    assert!(f(state.zoom) <= state.config.max_zoom as f64);
}

#[test]
fn test_focus_area_no_viewport() {
    let mut state = new_state();
    let original_zoom = f(state.zoom);

    focus_area(&mut state, 48.0, 2.0, 53.0, 14.0);

    assert!((f(state.center_lat) - 50.5).abs() < 0.01);
    assert_eq!(f(state.zoom), original_zoom);
}

#[test]
fn test_set_render_size() {
    let mut state = new_state();
    let original_width = state.renderer.width;

    state.set_render_size(80, 24, min_zoom(80));
    assert_eq!(state.renderer.width, 160);
    assert_eq!(state.renderer.height, 96);
    assert_eq!(state.last_area, Some((80, 24)));
    assert!(state.renderer.width != original_width || original_width == 160);
}

#[test]
fn test_set_render_size_too_small() {
    let mut state = new_state();
    state.set_render_size(80, 24, min_zoom(80));
    let w = state.renderer.width;

    state.set_render_size(1, 0, min_zoom(1));
    assert_eq!(state.renderer.width, w);
}

#[test]
fn sizes_are_updated_once() {
    let mut state = new_state();
    assert!(state.update_size(80, 24, min_zoom(80)));
    assert!(!state.update_size(80, 24, min_zoom(80)));
    assert!(!state.update_size(1, 24, min_zoom(1)));
    assert!(state.update_size(100, 24, min_zoom(100)));
    assert_eq!(state.renderer.width, 200);
    assert!(f(state.zoom) >= f(state.min_zoom));
}

#[test]
fn the_widget_shows_the_canvas() {
    let mut state = new_state();
    let cells = MapWidget::new().render(10, 5, min_zoom(10), &mut state);
    assert_eq!(cells.len(), 50);
    assert!(!state.needs_redraw);
    state.renderer.canvas.buffer.set_pixel(0, 0, 5);
    let cells = MapWidget::new().render(10, 5, min_zoom(10), &mut state);
    assert_eq!(cells[0].fg, Some(5));
    assert!(MapWidget::new().render(1, 5, min_zoom(1), &mut state).is_empty());
}
