//! Tests of the renderer.

use mapscii::config::MapConfig;
use mapscii::double::Double;
use mapscii::drawing::{reduce, unique_point_count, Drawing};
use mapscii::renderer::{
    gap_max_for_zoom, lane_range, FetchedTile, Lane, LayerView, ReadyFeature, ReadyLayer, Renderer,
    VisibleTile,
};
use mapscii::spatial::Rect;
use mapscii::style_data::DARK_STYLE;
use mapscii::styler::Styler;
use mapscii::tile::{MvtFeature, MvtLayer, MvtTile, MvtValue, Tile};
use mapscii::tile_source::TileKey;
use mapscii::utils::base_zoom;
use std::sync::Arc;

fn d(x: f64) -> Double {
    Double::from_bits(x.to_bits())
}

fn test_styler() -> Arc<Styler> {
    Arc::new(Styler::new(DARK_STYLE).unwrap())
}

fn renderer() -> Renderer {
    Renderer::new(test_styler(), Arc::new(MapConfig::default()))
}

fn tile_size(zoom: f64, config: &MapConfig) -> f64 {
    config.project_size as f64 * 2.0_f64.powf(zoom - base_zoom(d(zoom), config) as f64)
}

fn ll2tile(lon: f64, lat: f64, zoom: f64) -> (f64, f64) {
    let n = 2.0_f64.powf(zoom);
    let lat_rad = lat * std::f64::consts::PI / 180.0;
    (
        (lon + 180.0) / 360.0 * n,
        (1.0 - (lat_rad.tan() + 1.0 / lat_rad.cos()).ln() / std::f64::consts::PI) / 2.0 * n,
    )
}

fn lanes(center: f64, extent: usize, size: f64) -> Vec<Lane> {
    let half = (extent as f64 / 2.0 + 64.0) / size;
    let (first, last) = lane_range(d(center - half), d(center + half));
    (first..=last)
        .map(|i| {
            let start = extent as f64 / 2.0 - (center - i as f64) * size;
            Lane { index: i as i32, start: d(start), end: d(start + size) }
        })
        .collect()
}

fn visible_tiles(r: &Renderer, lat: f64, lon: f64, zoom: f64) -> Vec<VisibleTile> {
    let size = tile_size(zoom, &r.config);
    let (x, y) = ll2tile(lon, lat, base_zoom(d(zoom), &r.config) as f64);
    r.visible_tiles(&lanes(x, r.width, size), &lanes(y, r.height, size), d(zoom), d(size))
}

#[test]
fn test_renderer_creation() {
    let r = renderer();
    assert_eq!(r.width, 0);
    assert_eq!(r.height, 0);
}

#[test]
fn test_set_size() {
    let mut r = renderer();
    r.set_size(160, 80);
    assert_eq!(r.width, 160);
    assert_eq!(r.height, 80);
    assert_eq!(r.canvas.width, 160);
    assert_eq!(r.canvas.height, 80);
}

#[test]
fn test_visible_tiles_berlin() {
    let mut r = renderer();
    r.set_size(160, 80);

    let tiles = visible_tiles(&r, 52.51298, 13.42012, 4.0);
    assert!(!tiles.is_empty());
    assert!(tiles.len() <= 16, "too many tiles: {}", tiles.len());
    assert!(tiles.len() >= 1);
    // Berlin is in tile 4/8/5.
    assert!(tiles.iter().any(|t| t.key == TileKey::new(4, 8, 5)));
}

#[test]
fn test_visible_tiles_zoom_0() {
    let mut r = renderer();
    r.set_size(160, 80);

    let tiles = visible_tiles(&r, 0.0, 0.0, 0.0);
    assert!(!tiles.is_empty());
    assert!(tiles.len() <= 16, "too many tiles: {}", tiles.len());
    assert!(tiles.iter().all(|t| t.key == TileKey::new(0, 0, 0)));
}

#[test]
fn columns_are_counted_around_the_world() {
    let mut r = renderer();
    r.set_size(400, 80);
    // Near the date line the columns on both sides are shown.
    let tiles = visible_tiles(&r, 0.0, 179.9, 3.0);
    assert!(tiles.iter().any(|t| t.key.x == 7));
    assert!(tiles.iter().any(|t| t.key.x == 0));
    assert!(tiles.iter().all(|t| t.key.x < 8 && t.key.y < 8));
}

#[test]
fn test_draw_order_low_zoom() {
    let order = Renderer::generate_draw_order(1);
    assert_eq!(order.len(), 5);
    assert!(order.contains(&"water"));
    assert!(order.contains(&"landuse"));
    let landuse_pos = order.iter().position(|&l| l == "landuse").unwrap();
    let water_pos = order.iter().position(|&l| l == "water").unwrap();
    assert!(landuse_pos < water_pos, "landuse must be drawn before water");
}

#[test]
fn test_draw_order_high_zoom() {
    let order = Renderer::generate_draw_order(5);
    assert!(order.len() > 4);
    assert!(!order.contains(&"building"));
    assert!(order.contains(&"road"));

    let order11 = Renderer::generate_draw_order(11);
    assert!(order11.contains(&"building"));
    assert!(order11.contains(&"road"));

    let order14 = Renderer::generate_draw_order(14);
    assert!(order14.contains(&"housenum_label"));
}

#[test]
fn buildings_come_before_roads() {
    let order = Renderer::generate_draw_order(11);
    assert_eq!(order[3], "building");
    assert_eq!(order[4], "road");
    assert_eq!(order.len(), 13);
}

#[test]
fn test_gap_max_for_zoom() {
    assert_eq!(gap_max_for_zoom(0, 256), 2);
    assert_eq!(gap_max_for_zoom(2, 256), 8);
    assert_eq!(gap_max_for_zoom(3, 256), 16);
    assert_eq!(gap_max_for_zoom(4, 256), 32);
    assert_eq!(gap_max_for_zoom(5, 256), 32);
    assert_eq!(gap_max_for_zoom(8, 256), 32);
}

#[test]
fn gaps_round_and_saturate() {
    assert_eq!(gap_max_for_zoom(0, 63), 0);
    assert_eq!(gap_max_for_zoom(0, 64), 1);
    assert_eq!(gap_max_for_zoom(0, 0), 0);
    assert_eq!(gap_max_for_zoom(255, 0), 0);
    assert_eq!(gap_max_for_zoom(255, 1), 32);
    assert_eq!(gap_max_for_zoom(11, u32::MAX), 32);
}

#[test]
fn paths_are_reduced() {
    let path = vec![(0, 0), (0, 0), (5, 5), (200, 5), (300, 5), (400, 5), (10, 10)];
    // The viewport ends at 100 + 64: only the first and the last point outside
    // are kept.
    assert_eq!(
        reduce(&path, 100, 100),
        vec![(0, 0), (5, 5), (200, 5), (400, 5), (10, 10)]
    );
    let entering = vec![(-200, 0), (-100, 0), (10, 0)];
    assert_eq!(reduce(&entering, 160, 80), entering);
    // A single point outside comes once.
    let touching = vec![(0, 0), (200, 5), (200, 5), (10, 10), (300, 0), (400, 0)];
    assert_eq!(reduce(&touching, 100, 100), vec![(0, 0), (200, 5), (10, 10), (300, 0)]);
    let inside = vec![(0, 0), (1, 0), (2, 3)];
    assert_eq!(reduce(&inside, 100, 100), inside);
}

#[test]
fn distinct_points_are_counted() {
    assert_eq!(unique_point_count(&vec![]), 0);
    assert_eq!(unique_point_count(&vec![(1, 1)]), 1);
    assert_eq!(unique_point_count(&vec![(1, 1), (1, 1)]), 1);
    assert_eq!(unique_point_count(&vec![(0, 0), (1, 0), (0, 0), (1, 0)]), 2);
    assert_eq!(unique_point_count(&vec![(0, -1), (-1, 0), (i32::MIN, i32::MAX)]), 3);
    assert_eq!(unique_point_count(&vec![(0, 0), (4, 0), (4, 4), (0, 0)]), 3);
    assert_eq!(unique_point_count(&vec![(0, 0), (4, 0), (4, 0), (4, 4)]), 3);
}

#[test]
fn outlines_by_style() {
    let mut r = renderer();
    r.set_size(40, 40);
    let square = vec![vec![(0, 0), (10, 0), (10, 10), (0, 10), (0, 0)]];
    assert!(matches!(r.outline("line", &square), Drawing::Line { pixels, .. } if pixels.len() == 5));
    assert!(matches!(r.outline("fill", &square), Drawing::Fill { rows, .. } if rows.len() == 11));
    assert!(matches!(r.outline("symbol", &square), Drawing::Symbol { pixels } if pixels.len() == 5));
    assert!(matches!(r.outline("background", &square), Drawing::Nothing));
    assert!(matches!(r.outline("line", &vec![]), Drawing::Nothing));
    // A single point is no line, but it can have a label.
    let dot = vec![vec![(3, 3)]];
    assert!(matches!(r.outline("line", &dot), Drawing::Nothing));
    assert!(matches!(r.outline("symbol", &dot), Drawing::Symbol { pixels } if pixels.len() == 1));
    // A sliver is drawn point by point.
    let sliver = vec![vec![(3, 3), (4, 3), (3, 3)]];
    assert!(matches!(r.outline("fill", &sliver), Drawing::Dots { pixels } if pixels.len() == 3));
}

#[test]
fn simplification_is_optional() {
    let plain = renderer();
    let mut config = MapConfig::default();
    config.simplify_polylines = true;
    let simplifying = Renderer::new(test_styler(), Arc::new(config));
    let line = || Drawing::Line { pixels: vec![(0, 0), (5, 0), (9, 0)], reaches: vec![] };
    assert!(!plain.simplifies(&line()));
    assert!(simplifying.simplifies(&line()));
    let short = Drawing::Line { pixels: vec![(0, 0), (5, 0)], reaches: vec![] };
    assert!(!simplifying.simplifies(&short));
    match line().keep(&vec![0, 2]) {
        Drawing::Line { pixels, .. } => assert_eq!(pixels, vec![(0, 0), (9, 0)]),
        other => panic!("{other:?}"),
    }
}

// -- A whole frame ----------------------------------------------------------

fn no_value() -> MvtValue {
    MvtValue {
        string_value: None,
        float_value: None,
        double_value: None,
        int_value: None,
        uint_value: None,
        sint_value: None,
        bool_value: None,
    }
}

fn string(s: &str) -> MvtValue {
    MvtValue { string_value: Some(s.to_string()), ..no_value() }
}

fn zigzag(n: i32) -> u32 {
    ((n << 1) ^ (n >> 31)) as u32
}

fn ring(points: &[(i32, i32)]) -> Vec<u32> {
    let mut out = vec![9, zigzag(points[0].0), zigzag(points[0].1)];
    out.push((((points.len() - 1) as u32) << 3) | 2);
    for pair in points.windows(2) {
        out.push(zigzag(pair[1].0 - pair[0].0));
        out.push(zigzag(pair[1].1 - pair[0].1));
    }
    out.push(15);
    out
}

fn feature(geom_type: i32, tags: Vec<u32>, geometry: Vec<u32>) -> MvtFeature {
    MvtFeature { id: None, tags, geom_type: Some(geom_type), geometry }
}

fn layer(name: &str, features: Vec<MvtFeature>, keys: Vec<&str>, values: Vec<MvtValue>) -> MvtLayer {
    MvtLayer {
        name: name.to_string(),
        features,
        keys: keys.into_iter().map(|k| k.to_string()).collect(),
        values,
        extent: Some(256),
        version: Some(2),
    }
}

/// A tile in which one unit is one pixel at zoom 4.
fn load(layers: Vec<MvtLayer>) -> Arc<Tile> {
    let styler = test_styler();
    Arc::new(Tile::load(Ok(MvtTile { layers }), Some(&styler), &MapConfig::default()).unwrap())
}

fn view(r: &Renderer) -> LayerView {
    LayerView {
        window: Rect { x0: 0, y0: 0, x1: r.width as i64, y1: r.height as i64 },
        line_limit: 2,
    }
}

fn complete(drawing: Drawing) -> Drawing {
    match drawing {
        Drawing::Fill { rows, .. } => {
            let crossings = rows
                .iter()
                .map(|row| {
                    let yf = row.y as f64 + 0.5;
                    row.edges
                        .iter()
                        .map(|e| {
                            let t = (yf - e.y0 as f64) / (e.y1 as f64 - e.y0 as f64);
                            (e.x0 as f64 + t * (e.x1 - e.x0) as f64).round() as i32
                        })
                        .collect()
                })
                .collect();
            Drawing::Fill { rows, crossings }
        }
        other => other,
    }
}

fn fetched(r: &Renderer, tile: &Arc<Tile>, zoom: f64) -> FetchedTile {
    let views: Vec<LayerView> = tile.layers.iter().map(|_| view(r)).collect();
    let picked = r.get_tile_features(tile, &views, d(zoom));
    let layers = picked
        .into_iter()
        .map(|p| {
            let features = p
                .features
                .iter()
                .map(|&i| {
                    let feature = &tile.layers[p.layer].1.features[i];
                    let rings = feature
                        .points
                        .iter()
                        .map(|ring| ring.iter().map(|q| (q.x, q.y)).collect())
                        .collect();
                    let drawing = complete(r.outline(&feature.style_type, &rings));
                    ReadyFeature { feature: i, drawing }
                })
                .collect();
            ReadyLayer { layer: p.layer, features }
        })
        .collect();
    let visible = VisibleTile {
        key: TileKey::new(4, 0, 0),
        zoom: d(zoom),
        position_x: d(0.0),
        position_y: d(0.0),
        size: d(256.0),
    };
    FetchedTile { visible, tile: tile.clone(), layers }
}

fn square(x: i32, y: i32, size: i32) -> Vec<u32> {
    ring(&[(x, y), (x + size, y), (x + size, y + size), (x, y + size)])
}

#[test]
fn features_outside_the_view_are_left_out() {
    let mut r = renderer();
    r.set_size(100, 100);
    let water = vec![feature(3, vec![], square(10, 10, 20)), feature(3, vec![], square(150, 150, 20))];
    let tile = load(vec![layer("water", water, vec![], vec![])]);
    let picked = r.get_tile_features(&tile, &vec![view(&r)], d(4.0));
    assert_eq!(picked.len(), 1);
    assert_eq!(picked[0].features, vec![0]);
}

#[test]
fn features_outside_their_zoom_range_are_left_out() {
    let mut r = renderer();
    r.set_size(100, 100);
    // Industrial areas are shown from zoom 9 on.
    let area = vec![feature(3, vec![0, 0], square(10, 10, 20))];
    let tile = load(vec![layer("landuse", area, vec!["class"], vec![string("industrial")])]);
    assert_eq!(r.get_tile_features(&tile, &vec![view(&r)], d(8.9))[0].features.len(), 0);
    assert_eq!(r.get_tile_features(&tile, &vec![view(&r)], d(9.0))[0].features.len(), 1);
}

#[test]
fn tiny_lines_are_left_out() {
    let mut r = renderer();
    r.set_size(100, 100);
    let line = |n: i32| vec![9, 0, 0, 10, zigzag(n), 0];
    let admin = vec![
        feature(2, vec![0, 0, 1, 1, 2, 1], line(1)),
        feature(2, vec![0, 0, 1, 1, 2, 1], line(2)),
    ];
    let two = MvtValue { int_value: Some(2), ..no_value() };
    let none = MvtValue { int_value: Some(0), ..no_value() };
    let keys = vec!["admin_level", "disputed", "maritime"];
    let tile = load(vec![layer("admin", admin, keys, vec![two, none])]);
    let picked = r.get_tile_features(&tile, &vec![view(&r)], d(4.0));
    assert_eq!(picked[0].features, vec![1]);
}

#[test]
fn water_covers_landuse() {
    let mut r = renderer();
    r.set_size(100, 100);
    let water = vec![feature(3, vec![], square(0, 0, 50))];
    let park = vec![feature(3, vec![0, 0], square(40, 40, 30))];
    let tile = load(vec![
        layer("water", water, vec![], vec![]),
        layer("landuse", park, vec!["class"], vec![string("park")]),
    ]);
    r.prepare_frame();
    let frame = fetched(&r, &tile, 4.0);
    r.render_tiles(&vec![frame], d(4.0));
    assert_eq!(r.canvas.buffer.get_pixel_color(20, 20), 69);
    assert_eq!(r.canvas.buffer.get_pixel_color(45, 45), 69);
    let park_color = r.canvas.buffer.get_pixel_color(60, 60);
    assert!(park_color != 0 && park_color != 69);
}

fn place(name: u32, x: i32, y: i32) -> MvtFeature {
    feature(1, vec![0, name], vec![9, zigzag(x), zigzag(y)])
}

#[test]
fn labels_are_placed_once() {
    let mut r = renderer();
    r.set_size(200, 200);
    // The same name far apart, and another name at the place of the first.
    let places = vec![place(0, 60, 60), place(0, 160, 160), place(1, 60, 60)];
    let tile = load(vec![layer(
        "country_label",
        places,
        vec!["name"],
        vec![string("Atlantis"), string("Lemuria")],
    )]);
    r.prepare_frame();
    let mut frame = fetched(&r, &tile, 4.0);
    assert_eq!(frame.layers[0].features.len(), 3);
    // The index leaves the order open.
    frame.layers[0].features.sort_by_key(|f| f.feature);
    r.render_tiles(&vec![frame], d(4.0));
    // Of the labels at one place only the first has room, and a name is
    // written once.
    assert_eq!(r.label_buffer.entries.len(), 1);
    assert_eq!(r.canvas.buffer.char_count(), 8);
    // The text stands to the left of the point, by its length in bytes.
    let cell = (60 - 8) / 2 + (60 / 4) * 100;
    assert_eq!(r.canvas.buffer.char_buffer[cell].as_deref(), Some("A"));
}

#[test]
fn frames_start_blank() {
    let mut r = renderer();
    r.set_size(40, 40);
    r.canvas.buffer.set_pixel(3, 3, 9);
    assert!(r.label_buffer.write_if_possible("x", d(10.0), d(10.0), None, None));
    r.prepare_frame();
    assert_eq!(r.canvas.buffer.pixel_count(), 0);
    assert!(r.label_buffer.entries.is_empty());
}

#[test]
fn lines_are_limited_per_frame() {
    let mut r = renderer();
    r.set_size(100, 100);
    let count = 4100;
    let admin: Vec<MvtFeature> = (0..count)
        .map(|i| {
            let y = if i < 4000 { 10 } else { 90 };
            feature(2, vec![0, 0, 1, 1, 2, 1], vec![9, 0, zigzag(y), 10, zigzag(20), 0])
        })
        .collect();
    let two = MvtValue { int_value: Some(2), ..no_value() };
    let none = MvtValue { int_value: Some(0), ..no_value() };
    let keys = vec!["admin_level", "disputed", "maritime"];
    let tile = load(vec![layer("admin", admin, keys, vec![two, none])]);
    let mut frame = fetched(&r, &tile, 4.0);
    // The index leaves the order open.
    frame.layers[0].features.sort_by_key(|f| f.feature);
    assert_eq!(frame.layers[0].features.len(), count);
    r.prepare_frame();
    r.render_tiles(&vec![frame], d(4.0));
    let lit = |y: i32| (0..=20).filter(|&x| r.canvas.buffer.get_pixel_color(x, y) != 0).count();
    // A thin line keeps one pixel of each cell.
    assert_eq!(lit(10), 11);
    assert_eq!(lit(90), 0);
}
