//! Tests of the helpers.

use mapscii::config::MapConfig;
use mapscii::double::Double;
use mapscii::simplify::Simplifier;
use mapscii::utils::{base_zoom, clamp, hex2rgb, normalize, population};

fn d(x: f64) -> Double {
    Double::from_bits(x.to_bits())
}

fn f(x: Double) -> f64 {
    f64::from_bits(x.bits)
}

#[test]
fn test_hex2rgb_six_digit() {
    assert_eq!(hex2rgb("#ff0000"), [255, 0, 0]);
    assert_eq!(hex2rgb("#00ff00"), [0, 255, 0]);
    assert_eq!(hex2rgb("#5f87ff"), [95, 135, 255]);
}

#[test]
fn test_hex2rgb_three_digit() {
    assert_eq!(hex2rgb("#fff"), [255, 255, 255]);
    assert_eq!(hex2rgb("#000"), [0, 0, 0]);
    assert_eq!(hex2rgb("#f00"), [255, 0, 0]);
    assert_eq!(hex2rgb("#9bf"), [0x99, 0xBB, 0xFF]);
}

#[test]
fn test_hex2rgb_invalid() {
    assert_eq!(hex2rgb("not-a-color"), [255, 0, 0]);
}

#[test]
fn colors_are_trimmed_and_checked() {
    assert_eq!(hex2rgb("  #010203\n"), [1, 2, 3]);
    assert_eq!(hex2rgb("#12345"), [255, 0, 0]);
    assert_eq!(hex2rgb("#12345g"), [255, 0, 0]);
    assert_eq!(hex2rgb("#+ff"), [255, 0, 0]);
    assert_eq!(hex2rgb("#+12345"), [255, 0, 0]);
    assert_eq!(hex2rgb("#ggg"), [255, 0, 0]);
    assert_eq!(hex2rgb("#12"), [255, 0, 0]);
    assert_eq!(hex2rgb(""), [255, 0, 0]);
}

#[test]
fn test_normalize() {
    let (lon, lat) = normalize(d(-200.0), d(90.0));
    assert_eq!(f(lon), 160.0);
    assert_eq!(f(lat), 85.0511);
}

#[test]
fn normalizing_keeps_what_is_in_range() {
    let (lon, lat) = normalize(d(13.4), d(52.5));
    assert_eq!(f(lon), 13.4);
    assert_eq!(f(lat), 52.5);
    let (lon, lat) = normalize(d(190.0), d(-90.0));
    assert_eq!(f(lon), -170.0);
    assert_eq!(f(lat), -85.0511);
}

#[test]
fn longitudes_wrap_as_often_as_it_takes() {
    for (lon, wrapped) in [
        (600.0, -120.0),
        (540.0, 180.0),
        (-540.0, -180.0),
        (720.0, 0.0),
        (-720.5, -0.5),
        (180.0, 180.0),
        (-180.0, -180.0),
        (180.25, -179.75),
        (-1000.125, 79.875),
    ] {
        let (r, lat) = normalize(d(lon), d(0.0));
        let r = f(r);
        assert_eq!(r, wrapped);
        assert_eq!((lon - r) % 360.0, 0.0);
        assert_eq!(f(lat), 0.0);
    }
    for lon in [1e20, -3.7e150, f64::MAX] {
        let r = f(normalize(d(lon), d(0.0)).0);
        assert!(-180.0 <= r && r <= 180.0);
        assert_eq!((lon % 360.0 - r) % 360.0, 0.0);
    }
    assert_eq!(f(normalize(d(f64::INFINITY), d(0.0)).0), f64::INFINITY);
}

#[test]
fn test_population() {
    assert_eq!(population(0), 0);
    assert_eq!(population(0b1010), 2);
    assert_eq!(population(0xFF), 8);
}

fn perpendicular_distance(p: (f64, f64), a: (f64, f64), b: (f64, f64)) -> f64 {
    let dx = b.0 - a.0;
    let dy = b.1 - a.1;
    let denom = (dx * dx + dy * dy).sqrt();
    if denom == 0.0 {
        let ex = p.0 - a.0;
        let ey = p.1 - a.1;
        return (ex * ex + ey * ey).sqrt();
    }
    ((dy * p.0 - dx * p.1 + b.0 * a.1 - b.1 * a.0) / denom).abs()
}

fn simplify(points: &[(f64, f64)], epsilon: f64) -> Vec<(f64, f64)> {
    let mut course = Simplifier::new(points.len());
    while let Some((low, high)) = course.range() {
        let distances: Vec<Double> = (low + 1..high)
            .map(|i| d(perpendicular_distance(points[i], points[low], points[high])))
            .collect();
        course.measured(&distances, &d(epsilon));
    }
    course.points().into_iter().map(|i| points[i]).collect()
}

#[test]
fn test_simplify_trivial() {
    let pts = vec![(0.0, 0.0), (1.0, 0.0), (2.0, 0.0)];
    let result = simplify(&pts, 0.1);
    assert_eq!(result, vec![(0.0, 0.0), (2.0, 0.0)]);
}

#[test]
fn simplifying_keeps_corners_and_ends() {
    let pts = vec![(0.0, 0.0), (1.0, 0.1), (2.0, 5.0), (3.0, 0.1), (4.0, 0.0)];
    let result = simplify(&pts, 0.5);
    assert_eq!(result.first(), Some(&(0.0, 0.0)));
    assert_eq!(result.last(), Some(&(4.0, 0.0)));
    assert!(result.contains(&(2.0, 5.0)));
    // Nothing is dropped where every point counts.
    assert_eq!(simplify(&pts, 0.0), pts);
    // Short paths stay.
    assert_eq!(simplify(&pts[..2], 9.0), pts[..2].to_vec());
    assert_eq!(simplify(&[], 9.0), vec![]);
}

#[test]
fn tile_zoom_is_the_floor_within_its_range() {
    let config = MapConfig::default();
    assert_eq!(base_zoom(d(2.7), &config), 2);
    assert_eq!(base_zoom(d(3.0), &config), 3);
    assert_eq!(base_zoom(d(-1.5), &config), 0);
    assert_eq!(base_zoom(d(99.0), &config), 14);
    assert_eq!(base_zoom(d(f64::NAN), &config), 0);
}

#[test]
fn clamping() {
    assert_eq!(f(clamp(d(5.0), d(0.0), d(3.0))), 3.0);
    assert_eq!(f(clamp(d(-5.0), d(0.0), d(3.0))), 0.0);
    assert_eq!(f(clamp(d(1.5), d(0.0), d(3.0))), 1.5);
    assert!(f(clamp(d(f64::NAN), d(0.0), d(3.0))).is_nan());
}
