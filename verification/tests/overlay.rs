//! Tests of overlays.

use mapscii::config::MapConfig;
use mapscii::double::Double;
use mapscii::geo::{GeoJsonGeometry, LatLon};
use mapscii::overlay::{render_overlays, IdSource, Mark, OverlayCollection, OverlayKind};

fn d(x: f64) -> Double {
    Double::from_bits(x.to_bits())
}

fn f(x: Double) -> f64 {
    f64::from_bits(x.bits)
}

fn ll(lat: f64, lon: f64) -> LatLon {
    LatLon::new(d(lat), d(lon))
}

#[test]
fn test_latlon() {
    let pos = ll(52.5, 13.4);
    assert_eq!(f(pos.lat), 52.5);
    assert_eq!(f(pos.lon), 13.4);
}

#[test]
fn positions_compare_by_number() {
    assert!(ll(0.0, 1.0) == ll(-0.0, 1.0));
    assert!(ll(0.5, 1.0) != ll(0.0, 1.0));
    assert!(ll(f64::NAN, 1.0) != ll(f64::NAN, 1.0));
}

#[test]
fn test_overlay_collection_add_marker() {
    let mut ids = IdSource::new();
    let mut col = OverlayCollection::new();
    let id = col.add_marker(&mut ids, ll(52.5, 13.4), Some("Berlin".to_string()), 1);
    assert_eq!(col.len(), 1);
    assert!(id > 0);
}

#[test]
fn test_overlay_collection_add_line() {
    let mut ids = IdSource::new();
    let mut col = OverlayCollection::new();
    let points = vec![ll(52.5, 13.4), ll(48.8, 2.3)];
    let id = col.add_line(&mut ids, points, 2, d(1.5));
    assert_eq!(col.len(), 1);
    assert!(id > 0);
}

#[test]
fn test_overlay_collection_add_area() {
    let mut ids = IdSource::new();
    let mut col = OverlayCollection::new();
    let points = vec![ll(52.0, 13.0), ll(52.5, 13.0), ll(52.5, 13.5), ll(52.0, 13.5)];
    let id = col.add_area(&mut ids, points, Some(3), Some(1), d(0.5));
    assert_eq!(col.len(), 1);
    assert!(id > 0);
}

#[test]
fn test_overlay_collection_remove() {
    let mut ids = IdSource::new();
    let mut col = OverlayCollection::new();
    let id1 = col.add_marker(&mut ids, ll(52.5, 13.4), None, 1);
    let _id2 = col.add_marker(&mut ids, ll(48.8, 2.3), None, 2);
    assert_eq!(col.len(), 2);

    assert!(col.remove(id1));
    assert_eq!(col.len(), 1);

    assert!(!col.remove(id1)); // already removed
}

#[test]
fn test_overlay_collection_clear() {
    let mut ids = IdSource::new();
    let mut col = OverlayCollection::new();
    col.add_marker(&mut ids, ll(52.5, 13.4), None, 1);
    col.add_marker(&mut ids, ll(48.8, 2.3), None, 2);
    col.clear();
    assert!(col.is_empty());
}

#[test]
fn test_geojson_point() {
    let geojson_str = r#"{"type":"Point","coordinates":[13.4, 52.5]}"#;
    let mut ids = IdSource::new();
    let mut col = OverlayCollection::new();
    let result = col.add_geojson_layer(&mut ids, geojson_str, Some(1), None, d(1.0));
    assert!(result.is_ok());
    assert_eq!(col.len(), 1);
}

#[test]
fn test_geojson_feature_collection() {
    let geojson_str = r#"{
        "type": "FeatureCollection",
        "features": [
            {
                "type": "Feature",
                "geometry": {
                    "type": "Point",
                    "coordinates": [13.4, 52.5]
                },
                "properties": {}
            },
            {
                "type": "Feature",
                "geometry": {
                    "type": "LineString",
                    "coordinates": [[13.4, 52.5], [2.3, 48.8]]
                },
                "properties": {}
            }
        ]
    }"#;
    let mut ids = IdSource::new();
    let mut col = OverlayCollection::new();
    let result = col.add_geojson_layer(&mut ids, geojson_str, Some(5), None, d(1.0));
    assert!(result.is_ok());
    assert_eq!(col.len(), 1);
    match &col.overlays[0].kind {
        OverlayKind::GeoJson(shapes) => {
            assert_eq!(shapes.len(), 2);
            match &shapes[0] {
                GeoJsonGeometry::Point(p) => assert!(*p == ll(52.5, 13.4)),
                other => panic!("{other:?}"),
            }
            match &shapes[1] {
                GeoJsonGeometry::LineString(v) => {
                    assert_eq!(v.len(), 2);
                    assert!(v[1] == ll(48.8, 2.3));
                }
                other => panic!("{other:?}"),
            }
        }
        other => panic!("{other:?}"),
    }
}

#[test]
fn test_geojson_invalid() {
    let mut ids = IdSource::new();
    let mut col = OverlayCollection::new();
    let result = col.add_geojson_layer(&mut ids, "not valid json", Some(1), None, d(1.0));
    assert!(result.is_err());
    assert!(col.is_empty());
    assert_eq!(ids.next, 1);
}

#[test]
fn test_unique_ids() {
    let mut ids = IdSource::new();
    let mut col = OverlayCollection::new();
    let id1 = col.add_marker(&mut ids, ll(0.0, 0.0), None, 1);
    let id2 = col.add_marker(&mut ids, ll(0.0, 0.0), None, 1);
    assert_ne!(id1, id2);
}

#[test]
fn documents_without_geometry_are_refused() {
    let mut ids = IdSource::new();
    let mut col = OverlayCollection::new();
    let text = r#"{"type":"Feature","geometry":null,"properties":{}}"#;
    let err = col.add_geojson_layer(&mut ids, text, Some(1), None, d(1.0)).unwrap_err();
    assert_eq!(err, "no geometries found in GeoJSON");
    // A line of one point is none.
    let text = r#"{"type":"LineString","coordinates":[[1,2]]}"#;
    let err = col.add_geojson_layer(&mut ids, text, Some(1), None, d(1.0)).unwrap_err();
    assert_eq!(err, "no geometries found in GeoJSON");
    assert!(col.is_empty());
}

#[test]
fn all_geometries_are_taken() {
    let text = r#"{"type":"GeometryCollection","geometries":[
        {"type":"Point","coordinates":[1,2]},
        {"type":"MultiPoint","coordinates":[[1,2],[3,4]]},
        {"type":"MultiLineString","coordinates":[[[1,2],[3,4]],[[5,6]]]},
        {"type":"Polygon","coordinates":[[[0,0],[4,0],[4,4],[0,0]],[[1,1],[2,1],[2,2],[1,1]]]},
        {"type":"Polygon","coordinates":[[[0,0],[4,0]]]},
        {"type":"MultiPolygon","coordinates":[[[[0,0],[4,0],[4,4],[0,0]]]]},
        {"type":"GeometryCollection","geometries":[{"type":"LineString","coordinates":[[1,2],[3,4]]}]}
    ]}"#;
    let mut ids = IdSource::new();
    let mut col = OverlayCollection::new();
    col.add_geojson_layer(&mut ids, text, Some(1), Some(2), d(0.5)).unwrap();
    let OverlayKind::GeoJson(shapes) = &col.overlays[0].kind else {
        panic!("no geometries");
    };
    assert_eq!(shapes.len(), 6);
    assert!(matches!(&shapes[0], GeoJsonGeometry::Point(p) if *p == ll(2.0, 1.0)));
    assert!(matches!(&shapes[1], GeoJsonGeometry::MultiPoint(v) if v.len() == 2));
    assert!(matches!(&shapes[2], GeoJsonGeometry::MultiLineString(v) if v.len() == 1));
    assert!(matches!(&shapes[3], GeoJsonGeometry::Polygon(v) if v.len() == 2));
    assert!(matches!(&shapes[4], GeoJsonGeometry::MultiPolygon(v) if v.len() == 1));
    assert!(matches!(&shapes[5], GeoJsonGeometry::LineString(v) if v.len() == 2));

    let marks = render_overlays(&col, &MapConfig::default());
    // One text for the point, two for the points, a line, two areas, a line.
    let kinds: Vec<char> = marks
        .iter()
        .map(|m| match m {
            Mark::Text { .. } => 't',
            Mark::Line { .. } => 'l',
            Mark::Area { .. } => 'a',
        })
        .collect();
    assert_eq!(kinds, vec!['t', 't', 't', 'l', 'a', 'a', 'l']);
}

#[test]
fn colors_and_opacity_of_areas() {
    let mut ids = IdSource::new();
    let mut col = OverlayCollection::new();
    let ring = || vec![ll(0.0, 0.0), ll(0.0, 1.0), ll(1.0, 1.0)];
    col.add_area(&mut ids, ring(), Some(3), Some(1), d(7.5));
    col.add_area(&mut ids, ring(), None, Some(4), d(-1.0));
    col.add_area(&mut ids, ring(), None, None, d(0.25));
    let colors: Vec<u8> = col.overlays.iter().map(|o| o.color).collect();
    assert_eq!(colors, vec![3, 4, 0]);
    let opacities: Vec<f64> = col.overlays.iter().map(|o| f(o.fill_opacity)).collect();
    assert_eq!(opacities, vec![1.0, 0.0, 0.25]);
}

#[test]
fn markers_show_their_label_or_the_marker() {
    let mut ids = IdSource::new();
    let mut col = OverlayCollection::new();
    col.add_marker(&mut ids, ll(1.0, 2.0), Some("Paris".to_string()), 1);
    col.add_marker(&mut ids, ll(3.0, 4.0), None, 2);
    col.add_line(&mut ids, vec![ll(0.0, 0.0)], 3, d(1.0));
    let marks = render_overlays(&col, &MapConfig::default());
    // A line of one point is not drawn.
    assert_eq!(marks.len(), 2);
    match (&marks[0], &marks[1]) {
        (
            Mark::Text { text: first, at, color: 1 },
            Mark::Text { text: second, color: 2, .. },
        ) => {
            assert_eq!(first, "Paris");
            assert!(*at == ll(1.0, 2.0));
            assert_eq!(second, "\u{25c9}");
        }
        other => panic!("{other:?}"),
    }
}
