//! Tests of the styler.

use mapscii::json::{JsonNumber, JsonValue};
use mapscii::style_data::DARK_STYLE;
use mapscii::styler::{StyleError, Styler};

fn test_style_json() -> &'static str {
    DARK_STYLE
}

fn text(s: &str) -> JsonValue {
    JsonValue::Text(s.to_string())
}

fn number(n: u64) -> JsonValue {
    JsonValue::Number(JsonNumber::PosInt(n))
}

fn props(entries: Vec<(&str, JsonValue)>) -> Vec<(String, JsonValue)> {
    entries.into_iter().map(|(k, v)| (k.to_string(), v)).collect()
}

#[test]
fn test_parse_dark_style() {
    let styler = Styler::new(test_style_json()).unwrap();
    assert_eq!(styler.name, "dark");
    assert!(!styler.layers.is_empty());
}

#[test]
fn test_constant_replacement() {
    let styler = Styler::new(test_style_json()).unwrap();
    // The "water" layer should have fill-color resolved from "@water" to "#5f87ff"
    let water = styler.style_by_id("water").unwrap();
    let fill = mapscii::json::find_value(&water.paint, "fill-color").unwrap();
    assert_eq!(fill.as_str().unwrap(), "#5f87ff");
}

#[test]
fn test_background_layer() {
    let styler = Styler::new(test_style_json()).unwrap();
    let bg = styler.style_by_id("background").unwrap();
    assert_eq!(bg.layer_type, "background");
    let color = bg.background_color();
    assert!(color.is_some());
}

#[test]
fn test_filter_eq() {
    let styler = Styler::new(test_style_json()).unwrap();
    let park = styler.style_by_id("landuse_park").unwrap();

    let first = props(vec![("class", text("park"))]);
    assert!(park.filter.matches(&first, "Polygon"));

    let second = props(vec![("class", text("wood"))]);
    assert!(!park.filter.matches(&second, "Polygon"));
}

#[test]
fn test_filter_all_of() {
    let styler = Styler::new(test_style_json()).unwrap();
    let admin = styler.style_by_id("admin_level_2").unwrap();

    let properties = props(vec![
        ("admin_level", number(2)),
        ("disputed", number(0)),
        ("maritime", number(0)),
    ]);
    assert!(admin.filter.matches(&properties, "LineString"));
}

#[test]
fn test_filter_in() {
    let styler = Styler::new(test_style_json()).unwrap();
    let stream = styler.style_by_id("waterway_stream_canal").unwrap();

    let first = props(vec![("class", text("stream"))]);
    assert!(stream.filter.matches(&first, "LineString"));

    let second = props(vec![("class", text("river"))]);
    assert!(!stream.filter.matches(&second, "LineString"));
}

#[test]
fn test_get_style_for() {
    let styler = Styler::new(test_style_json()).unwrap();
    let properties = props(vec![("class", text("park"))]);
    let style = styler.get_style_for("landuse", &properties, "Polygon");
    assert!(style.is_some());
    assert_eq!(style.unwrap().id, "landuse_park");
}

#[test]
fn test_layer_color() {
    let styler = Styler::new(test_style_json()).unwrap();
    let water = styler.style_by_id("water").unwrap();
    let color = water.fill_color();
    assert!(color.is_some());
    // #5f87ff -> some xterm-256 index
    assert!(color.unwrap() > 0);
}

fn one_layer(filter: &str) -> Result<Styler, StyleError> {
    let json = format!(
        "{{\"name\":\"t\",\"layers\":[{{\"id\":\"a\",\"type\":\"fill\",\"filter\":{filter}}}]}}"
    );
    Styler::new(&json)
}

fn accepts(filter: &str, properties: Vec<(&str, JsonValue)>, kind: &str) -> bool {
    let styler = one_layer(filter).unwrap();
    styler.layers[0].filter.matches(&props(properties), kind)
}

#[test]
fn negative_filters_negate() {
    assert!(accepts("[\"!=\",\"a\",1]", vec![("a", number(2))], "Point"));
    assert!(!accepts("[\"!=\",\"a\",1]", vec![("a", number(1))], "Point"));
    assert!(accepts("[\"!in\",\"a\",1,2]", vec![("a", number(3))], "Point"));
    assert!(!accepts("[\"!in\",\"a\",1,2]", vec![("a", number(2))], "Point"));
    assert!(accepts("[\"!has\",\"a\"]", vec![], "Point"));
    assert!(!accepts("[\"!has\",\"a\"]", vec![("a", number(3))], "Point"));
}

#[test]
fn comparisons_are_numeric() {
    assert!(accepts("[\">=\",\"a\",2]", vec![("a", number(2))], "Point"));
    assert!(!accepts("[\">\",\"a\",2]", vec![("a", number(2))], "Point"));
    assert!(accepts("[\"<=\",\"a\",2]", vec![("a", number(2))], "Point"));
    assert!(accepts("[\"<\",\"a\",2.5]", vec![("a", number(2))], "Point"));
    assert!(!accepts("[\"<\",\"a\",2.5]", vec![("a", text("x"))], "Point"));
}

#[test]
fn types_are_compared() {
    assert!(accepts("[\"==\",\"$type\",\"Polygon\"]", vec![], "Polygon"));
    assert!(!accepts("[\"==\",\"$type\",\"Polygon\"]", vec![], "Point"));
    assert!(accepts("[\"any\",[\"==\",\"a\",1],[\"==\",\"a\",2]]", vec![("a", number(2))], "Point"));
    assert!(accepts("[\"none\",[\"==\",\"a\",1]]", vec![("a", number(2))], "Point"));
}

#[test]
fn broken_styles_are_refused() {
    assert!(matches!(Styler::new("not json"), Err(StyleError::Json(_))));
    assert!(matches!(one_layer("[\"in\"]"), Err(StyleError::Filter)));
}

#[test]
fn parsed_numbers_keep_their_kind() {
    let styler = Styler::new("{\"layers\":[{\"id\":\"a\",\"minzoom\":3,\"maxzoom\":4.5}]}").unwrap();
    let layer = &styler.layers[0];
    assert_eq!(layer.minzoom.map(|z| z.bits), Some(3.0f64.to_bits()));
    assert_eq!(layer.maxzoom.map(|z| z.bits), Some(4.5f64.to_bits()));
}

#[test]
fn layers_are_listed_by_source_layer() {
    let styler = Styler::new(
        r##"{"layers": [
            {"id": "a", "type": "fill", "source-layer": "water"},
            {"id": "b", "type": "line", "source-layer": "road"},
            {"id": "c", "type": "background"},
            {"id": "d", "type": "line", "source-layer": "water"}
        ]}"##,
    )
    .unwrap();
    let ids = |layer: &str| -> Vec<String> {
        styler.style_by_layer(layer).iter().map(|l| l.id.clone()).collect()
    };
    assert_eq!(ids("water"), vec!["a", "d"]);
    assert_eq!(ids("road"), vec!["b"]);
    assert!(ids("admin").is_empty());
}
