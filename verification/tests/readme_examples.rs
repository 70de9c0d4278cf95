//! The examples of the README.

use mapscii::overlay::IdSource;
use mapscii::{Double, LatLon, MapConfig, MapState};
use std::sync::Arc;

fn d(x: f64) -> Double {
    Double::from_bits(x.to_bits())
}

fn ll(lat: f64, lon: f64) -> LatLon {
    LatLon::new(d(lat), d(lon))
}

fn new_state() -> MapState {
    MapState::new(Arc::new(MapConfig::default()), None).ok().unwrap()
}

#[test]
fn readme_config_builder() {
    let config = Arc::new(
        MapConfig::default()
            .with_center(d(35.6762), d(139.6503))
            .with_zoom(d(6.0))
            .with_max_zoom(18)
            .with_zoom_step(d(0.5))
            .with_language("ja".to_string())
            .with_braille(true)
            .with_tile_persistence(true)
            .with_source("http://mapscii.me/".to_string()),
    );
    assert_eq!(config.language, "ja");
    assert_eq!(config.max_zoom, 18);
    assert_eq!(config.initial_zoom.map(|z| z.bits), Some(6.0f64.to_bits()));
}

#[test]
fn readme_overlays() {
    let mut ids = IdSource::new();
    let mut state = new_state();

    // Markers
    let id = state.add_marker(&mut ids, ll(48.8566, 2.3522), Some("Paris".into()), 1);
    state.add_marker(&mut ids, ll(51.5074, -0.1278), None, 9);

    // Lines
    let route = vec![ll(52.5200, 13.4050), ll(50.1109, 8.6821), ll(48.1351, 11.5820)];
    let _line_id = state.add_line(&mut ids, route, 4, d(1.0));

    // Areas
    let polygon = vec![ll(52.0, 13.0), ll(52.5, 13.0), ll(52.5, 13.5), ll(52.0, 13.5)];
    let _area_id = state.add_area(&mut ids, polygon, 3);
    assert_eq!(state.overlays.len(), 4);

    // Remove
    state.remove_overlay(id);
    assert_eq!(state.overlays.len(), 3);
    state.clear_overlays();
    assert!(state.overlays.is_empty());
}

#[test]
fn readme_geojson() {
    let mut ids = IdSource::new();
    let mut state = new_state();

    let geojson = r#"{
        "type": "FeatureCollection",
        "features": [
            {
                "type": "Feature",
                "geometry": {
                    "type": "LineString",
                    "coordinates": [[13.4, 52.5], [2.3, 48.8], [-3.7, 40.4]]
                },
                "properties": {}
            }
        ]
    }"#;

    let result = state.add_geojson_layer(&mut ids, geojson, 5);
    assert!(result.is_ok());
}

#[test]
fn readme_navigation() {
    let mut state = new_state();

    state.set_center(d(40.7128), d(-74.0060));
    let lat = f64::from_bits(state.center_lat.bits);
    let lon = f64::from_bits(state.center_lon.bits);
    state.move_by(d(lat + 1.0), d(lon + 0.0));
    let zoom = f64::from_bits(state.zoom.bits);
    state.zoom_by(d(zoom + 0.2));
    state.zoom_by(d(zoom + 0.2 - 0.2));
    state.toggle_braille();
    assert_eq!(f64::from_bits(state.center_lat.bits), 40.7128 + 1.0);
}

#[test]
fn readme_state_builder() {
    let state = new_state().with_center(d(40.7128), d(-74.0060)).with_zoom(d(5.0));
    assert_eq!(state.center_lon.bits, (-74.0060f64).to_bits());
}

#[test]
fn default_zoom_step() {
    assert_eq!(MapConfig::default().zoom_step.bits, 0.2f64.to_bits());
    assert_eq!(MapConfig::default().initial_lat.bits, 52.51298f64.to_bits());
    assert_eq!(MapConfig::default().initial_lon.bits, 13.42012f64.to_bits());
}
