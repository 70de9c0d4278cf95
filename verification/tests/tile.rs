//! Tests of vector tiles.

use mapscii::config::MapConfig;
use mapscii::double::Double;
use mapscii::json::{JsonNumber, JsonValue};
use mapscii::style_data::DARK_STYLE;
use mapscii::styler::Styler;
use mapscii::tile::{
    compute_bbox, decode_geometry, decode_properties, geom_type_str, resolve_color_string,
    resolve_line_width, zigzag_decode, MvtFeature, MvtLayer, MvtTile, MvtValue, Tile, TileError,
    TilePoint,
};
use std::io::Write;

fn d(x: f64) -> Double {
    Double::from_bits(x.to_bits())
}

fn text(s: &str) -> JsonValue {
    JsonValue::Text(s.to_string())
}

fn number(n: u64) -> JsonValue {
    JsonValue::Number(JsonNumber::PosInt(n))
}

fn float(x: f64) -> JsonValue {
    JsonValue::Number(JsonNumber::Float(d(x)))
}

fn no_value() -> MvtValue {
    MvtValue {
        string_value: None,
        float_value: None,
        double_value: None,
        int_value: None,
        uint_value: None,
        sint_value: None,
        bool_value: None,
    }
}

fn stops(entries: Vec<(u64, JsonValue)>) -> JsonValue {
    let list = entries
        .into_iter()
        .map(|(z, v)| JsonValue::Array(vec![number(z), v]))
        .collect();
    JsonValue::Object(vec![("stops".to_string(), JsonValue::Array(list))])
}

#[test]
fn test_zigzag_decode() {
    assert_eq!(zigzag_decode(0), 0);
    assert_eq!(zigzag_decode(1), -1);
    assert_eq!(zigzag_decode(2), 1);
    assert_eq!(zigzag_decode(3), -2);
    assert_eq!(zigzag_decode(4), 2);
}

#[test]
fn zigzag_at_the_ends() {
    assert_eq!(zigzag_decode(u32::MAX), i32::MIN);
    assert_eq!(zigzag_decode(u32::MAX - 1), i32::MAX);
}

#[test]
fn test_decode_geometry_point() {
    // MoveTo count=1: cmd = (1 << 3) | 1 = 9
    // dx=2 -> zigzag=4, dy=3 -> zigzag=6
    let geometry = vec![9, 4, 6];
    let rings = decode_geometry(&geometry);
    assert_eq!(rings.len(), 1);
    assert_eq!(rings[0].len(), 1);
    assert_eq!(rings[0][0].x, 2);
    assert_eq!(rings[0][0].y, 3);
}

#[test]
fn test_decode_geometry_linestring() {
    // MoveTo(1): cmd = 9, dx=0->0, dy=0->0
    // LineTo(2): cmd = (2 << 3) | 2 = 18
    //   dx=10->20, dy=0->0
    //   dx=0->0,   dy=10->20
    let geometry = vec![9, 0, 0, 18, 20, 0, 0, 20];
    let rings = decode_geometry(&geometry);
    assert_eq!(rings.len(), 1);
    assert_eq!(rings[0].len(), 3);
    assert_eq!(rings[0][0].x, 0);
    assert_eq!(rings[0][0].y, 0);
    assert_eq!(rings[0][1].x, 10);
    assert_eq!(rings[0][1].y, 0);
    assert_eq!(rings[0][2].x, 10);
    assert_eq!(rings[0][2].y, 10);
}

#[test]
fn test_decode_geometry_polygon() {
    // MoveTo(1): cmd = 9, dx=0->0, dy=0->0
    // LineTo(3): cmd = (3 << 3) | 2 = 26
    //   dx=10->20, dy=0->0
    //   dx=0->0,   dy=10->20
    //   dx=-10->19, dy=0->0
    // ClosePath: cmd = (1 << 3) | 7 = 15
    let geometry = vec![9, 0, 0, 26, 20, 0, 0, 20, 19, 0, 15];
    let rings = decode_geometry(&geometry);
    assert_eq!(rings.len(), 1);
    // 4 points: start, 3 lineto, close (adds start again) = 5
    assert_eq!(rings[0].len(), 5);
    // First and last should be the same (closed)
    assert_eq!(rings[0][0].x, rings[0][4].x);
    assert_eq!(rings[0][0].y, rings[0][4].y);
}

#[test]
fn truncated_geometry_ends_early() {
    // LineTo(3) with the parameters of one point only.
    let rings = decode_geometry(&vec![9, 0, 0, 26, 20, 0]);
    assert_eq!(rings.len(), 1);
    assert_eq!(rings[0].len(), 2);
    assert!(decode_geometry(&vec![]).is_empty());
}

#[test]
fn test_mvt_value_to_json() {
    let v = MvtValue { string_value: Some("hello".to_string()), ..no_value() };
    assert!(v.to_json_value().is_equal(&text("hello")));

    let v2 = MvtValue { int_value: Some(42), ..no_value() };
    assert!(v2.to_json_value().is_equal(&number(42)));

    let v3 = MvtValue { bool_value: Some(true), ..no_value() };
    assert!(v3.to_json_value().is_equal(&JsonValue::Bool(true)));

    assert!(no_value().to_json_value().is_equal(&JsonValue::Null));
}

#[test]
fn test_resolve_color_string_direct() {
    let val = text("#ff0000");
    assert_eq!(resolve_color_string(&val), "#ff0000");
}

#[test]
fn test_resolve_color_string_stops() {
    let val = stops(vec![(5, text("#00ff00")), (10, text("#ff0000"))]);
    assert_eq!(resolve_color_string(&val), "#00ff00");
}

#[test]
fn test_resolve_line_width() {
    assert_eq!(resolve_line_width(None).bits, 1.0f64.to_bits());
    assert_eq!(resolve_line_width(Some(&float(2.5))).bits, 2.5f64.to_bits());
    assert_eq!(
        resolve_line_width(Some(&stops(vec![(5, float(1.0)), (10, float(3.0))]))).bits,
        1.0f64.to_bits()
    );
}

#[test]
fn test_compute_bbox() {
    let points = vec![
        TilePoint { x: 5, y: 10 },
        TilePoint { x: 20, y: 3 },
        TilePoint { x: -1, y: 15 },
    ];
    let (min_x, max_x, min_y, max_y) = compute_bbox(&points);
    assert_eq!(min_x, -1);
    assert_eq!(max_x, 20);
    assert_eq!(min_y, 3);
    assert_eq!(max_y, 15);
}

#[test]
fn test_geom_type_str() {
    assert_eq!(geom_type_str(1), "Point");
    assert_eq!(geom_type_str(2), "LineString");
    assert_eq!(geom_type_str(3), "Polygon");
    assert_eq!(geom_type_str(0), "Unknown");
}

fn gzip(data: &[u8]) -> Vec<u8> {
    let mut encoder = flate2::write::GzEncoder::new(Vec::new(), flate2::Compression::default());
    encoder.write_all(data).unwrap();
    encoder.finish().unwrap()
}

#[test]
fn gzipped_tiles_are_unpacked() {
    let packed = gzip(b"some tile data");
    assert_ne!(packed, b"some tile data".to_vec());
    assert_eq!(Tile::unzip_if_needed(packed).unwrap(), b"some tile data".to_vec());
    assert_eq!(Tile::unzip_if_needed(b"plain".to_vec()).unwrap(), b"plain".to_vec());
    assert_eq!(Tile::unzip_if_needed(vec![]).unwrap(), Vec::<u8>::new());
}

#[test]
fn broken_gzip_is_an_error() {
    let err = Tile::unzip_if_needed(vec![0x1f, 0x8b, 1, 2, 3]).unwrap_err();
    assert!(matches!(err, TileError::Decompress(_)));
    assert!(err.message().starts_with("failed to decompress tile: "));
}

fn feature(geom_type: i32, tags: Vec<u32>, geometry: Vec<u32>) -> MvtFeature {
    MvtFeature { id: None, tags, geom_type: Some(geom_type), geometry }
}

fn layer(name: &str, features: Vec<MvtFeature>, keys: Vec<&str>, values: Vec<MvtValue>) -> MvtLayer {
    MvtLayer {
        name: name.to_string(),
        features,
        keys: keys.into_iter().map(|k| k.to_string()).collect(),
        values,
        extent: Some(4096),
        version: Some(2),
    }
}

fn string(s: &str) -> MvtValue {
    MvtValue { string_value: Some(s.to_string()), ..no_value() }
}

#[test]
fn properties_come_from_tags() {
    let f = feature(1, vec![0, 1, 1, 0, 9, 9, 0], vec![]);
    let l = layer("poi", vec![], vec!["class", "name"], vec![string("a"), string("b")]);
    let props = decode_properties(&f, &l);
    assert_eq!(props.len(), 2);
    assert_eq!(props[0].0, "class");
    assert!(props[0].1.is_equal(&text("b")));
    assert_eq!(props[1].0, "name");
    assert!(props[1].1.is_equal(&text("a")));
}

#[test]
fn tiles_are_styled_and_indexed() {
    let styler = Styler::new(DARK_STYLE).unwrap();
    let water = feature(3, vec![], vec![9, 0, 0, 26, 20, 0, 0, 20, 19, 0, 15]);
    let park = feature(3, vec![0, 0], vec![9, 200, 200, 26, 20, 0, 0, 20, 19, 0, 15]);
    let unknown = feature(3, vec![0, 1], vec![9, 0, 0, 26, 20, 0, 0, 20, 19, 0, 15]);
    let mvt = MvtTile {
        layers: vec![
            layer("water", vec![water], vec![], vec![]),
            layer("landuse", vec![park, unknown], vec!["class"], vec![string("park"), string("xyz")]),
        ],
    };
    let tile = Tile::load(Ok(mvt), Some(&styler), &MapConfig::default()).unwrap();
    assert_eq!(tile.layers.len(), 2);
    let i = tile.layer_index("water").unwrap();
    let f = &tile.layers[i].1.features[0];
    assert_eq!(f.style_id, "water");
    assert_eq!(f.style_type, "fill");
    assert_eq!(f.color, 69);
    assert_eq!((f.min_x, f.max_x, f.min_y, f.max_y), (0, 10, 0, 10));
    assert_eq!(f.points.len(), 1);
    let j = tile.layer_index("landuse").unwrap();
    // The second feature matches no style.
    assert_eq!(tile.layers[j].1.features.len(), 1);
    assert_eq!(tile.layers[j].1.features[0].style_id, "landuse_park");
    assert!(tile.layer_index("road").is_none());
}

#[test]
fn undecodable_tiles_are_an_error() {
    let err = Tile::load(Err("no tile".to_string()), None, &MapConfig::default()).err().unwrap();
    assert!(matches!(err, TileError::ProtobufDecode(_)));
    assert_eq!(err.message(), "failed to decode protobuf: no tile");
}

#[test]
fn labels_come_in_the_language() {
    let styler = Styler::new(DARK_STYLE).unwrap();
    let names = || {
        layer(
            "country_label",
            vec![
                feature(1, vec![0, 0, 1, 1, 2, 2], vec![9, 4, 6]),
                feature(1, vec![2, 2], vec![9, 4, 6]),
                feature(1, vec![3, 3, 4, 4], vec![9, 4, 6]),
                feature(1, vec![], vec![9, 4, 6]),
            ],
            vec!["name_de", "name_en", "name", "house_num", "scalerank"],
            vec![
                string("Deutschland"),
                string("Germany"),
                string("Allemagne"),
                string("7b"),
                MvtValue { int_value: Some(4), ..no_value() },
            ],
        )
    };
    let labels = |language: &str| -> Vec<Option<String>> {
        let config = MapConfig::default().with_language(language.to_string());
        let mvt = MvtTile { layers: vec![names()] };
        let tile = Tile::load(Ok(mvt), Some(&styler), &config).unwrap();
        tile.layers[0].1.features.iter().map(|f| f.label.clone()).collect()
    };
    let text = |s: &str| Some(s.to_string());
    assert_eq!(labels("de"), vec![text("Deutschland"), text("Allemagne"), text("7b"), None]);
    assert_eq!(labels("en")[0], text("Germany"));
    assert_eq!(labels("fr")[0], text("Germany"));
}

#[test]
fn ranks_come_from_properties() {
    let styler = Styler::new(DARK_STYLE).unwrap();
    let five = MvtValue { int_value: Some(5), ..no_value() };
    let nine = MvtValue { uint_value: Some(9), ..no_value() };
    let l = layer(
        "country_label",
        vec![
            feature(1, vec![0, 0, 1, 1], vec![9, 4, 6]),
            feature(1, vec![1, 1], vec![9, 4, 6]),
            feature(1, vec![], vec![9, 4, 6]),
        ],
        vec!["localrank", "scalerank"],
        vec![five, nine],
    );
    let tile =
        Tile::load(Ok(MvtTile { layers: vec![l] }), Some(&styler), &MapConfig::default()).unwrap();
    let sorts: Vec<Option<i64>> = tile.layers[0].1.features.iter().map(|f| f.sort).collect();
    assert_eq!(sorts, vec![Some(5), Some(9), None]);
}

#[test]
fn without_a_styler_all_features_are_kept() {
    let name = MvtValue { string_value: Some("Sea".to_string()), ..no_value() };
    let l = layer(
        "water",
        vec![
            feature(3, vec![], vec![9, 0, 0, 26, 20, 0, 0, 20, 19, 0, 15]),
            feature(2, vec![], vec![9, 2, 2, 10, 4, 4]),
            feature(1, vec![0, 0], vec![9, 4, 6]),
            feature(2, vec![], vec![]),
        ],
        vec!["name"],
        vec![name],
    );
    let tile = Tile::load(Ok(MvtTile { layers: vec![l] }), None, &MapConfig::default()).unwrap();
    assert_eq!(tile.layers.len(), 1);
    let features = &tile.layers[0].1.features;
    let types: Vec<&str> = features.iter().map(|f| f.style_type.as_str()).collect();
    assert_eq!(types, vec!["fill", "line", "symbol"]);
    assert!(features.iter().all(|f| f.layer == "water" && f.style_id.is_empty() && f.color == 0));
    assert!(features.iter().all(|f| f.line_width.bits == 1.0_f64.to_bits()));
    assert_eq!(features[2].label.as_deref(), Some("Sea"));
    assert_eq!(features[0].points[0].len(), 5);
}
