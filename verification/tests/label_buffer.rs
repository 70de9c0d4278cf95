//! Tests of the label buffer.

use mapscii::double::Double;
use mapscii::label_buffer::LabelBuffer;

fn d(x: f64) -> Double {
    Double::from_bits(x.to_bits())
}

fn f(x: Double) -> f64 {
    f64::from_bits(x.bits)
}

#[test]
fn test_empty_buffer() {
    let buf = LabelBuffer::new();
    assert!(buf.features_at(d(0.0), d(0.0)).is_empty());
}

#[test]
fn test_place_label() {
    let mut buf = LabelBuffer::new();
    assert!(buf.write_if_possible("Hello", d(10.0), d(10.0), None, None));
}

#[test]
fn test_collision() {
    let mut buf = LabelBuffer::new();
    assert!(buf.write_if_possible("Hello", d(10.0), d(10.0), None, None));
    // Same position should collide
    assert!(!buf.write_if_possible("World", d(10.0), d(10.0), None, None));
}

#[test]
fn test_no_collision_far_apart() {
    let mut buf = LabelBuffer::new();
    assert!(buf.write_if_possible("A", d(0.0), d(0.0), None, None));
    assert!(buf.write_if_possible("B", d(200.0), d(200.0), None, None));
}

#[test]
fn test_clear() {
    let mut buf = LabelBuffer::new();
    buf.write_if_possible("Hello", d(10.0), d(10.0), None, None);
    buf.clear();
    // After clearing, same position should be available
    assert!(buf.write_if_possible("World", d(10.0), d(10.0), None, None));
}

#[test]
fn test_project() {
    let (cx, cy) = LabelBuffer::project(d(20.0), d(40.0));
    assert_eq!(f(cx), 10.0);
    assert_eq!(f(cy), 10.0);
}

#[test]
fn projection_rounds_down() {
    let values = [
        0.0, -0.0, 1.0, -1.0, 3.0, 7.0, 3.999, -4.0, -4.5, 1e-300, -1e-300, 5e-324, -5e-324,
        -1e-323, -1.5e-323, 123456789.75, -987654321.125, 9e15, -9.007199254740993e15, 1e200, -1e300,
    ];
    for x in values {
        let (cx, cy) = LabelBuffer::project(d(x), d(x));
        assert_eq!(f(cx), (x / 2.0).floor());
        assert_eq!(f(cy), (x / 4.0).floor());
    }
}

#[test]
fn features_are_found_where_labels_are() {
    let mut buf = LabelBuffer::new();
    assert!(buf.write_if_possible("Hello", d(40.0), d(40.0), Some(7), Some(d(0.0))));
    assert_eq!(buf.features_at(d(20.0), d(10.0)), vec![0]);
    assert_eq!(buf.features_at(d(24.0), d(10.0)), vec![0]);
    assert!(buf.features_at(d(30.0), d(10.0)).is_empty());
    assert_eq!(buf.entries[0].feature_id, Some(7));
}

#[test]
fn width_of_a_label_is_its_width_on_screen() {
    let mut buf = LabelBuffer::new();
    // Three ideographs take six columns.
    assert!(buf.write_if_possible("\u{4e16}\u{754c}\u{5730}", d(0.0), d(0.0), None, Some(d(0.0))));
    assert_eq!(buf.features_at(d(6.0), d(0.0)), vec![0]);
    assert!(buf.features_at(d(7.0), d(0.0)).is_empty());
}

#[test]
fn touching_labels_collide() {
    let mut buf = LabelBuffer::new();
    assert!(buf.write_if_possible("abc", d(0.0), d(0.0), None, Some(d(0.0))));
    assert!(!buf.write_if_possible("d", d(6.0), d(0.0), None, Some(d(0.0))));
    assert!(buf.write_if_possible("d", d(8.0), d(0.0), None, Some(d(0.0))));
}

#[test]
fn boxes_are_those_of_the_machine() {
    let margins = [0.0, 0.5, 5.0, 1.0 / 3.0, 1e-9, 1e17, 1.7e308, 5e-324, -2.25];
    let pixels = [(0.0, 0.0), (10.5, -3.25), (-1e16, 7.0), (1e300, -1e300), (123.0, 456.0)];
    for m in margins {
        for (x, y) in pixels {
            let mut buf = LabelBuffer::new();
            assert!(buf.write_if_possible("Hello", d(x), d(y), None, Some(d(m))));
            let (cx, cy) = ((x / 2.0_f64).floor(), (y / 4.0_f64).floor());
            let e = buf.entries[0];
            assert_eq!(f(e.min_x), cx - m);
            assert_eq!(f(e.min_y), cy - m / 2.0);
            assert_eq!(f(e.max_x), cx + m + 5.0);
            assert_eq!(f(e.max_y), cy + m / 2.0);
        }
    }
}

#[test]
fn margins_may_have_fractions() {
    let mut buf = LabelBuffer::new();
    assert!(buf.write_if_possible("abc", d(0.0), d(0.0), None, Some(d(0.25))));
    // The first label ends at 3.25, this one starts at 3.75.
    assert!(buf.write_if_possible("d", d(8.0), d(0.0), None, Some(d(0.25))));
    // It ends at 5.25: another at 6 with half a cell more would start at 5.25.
    assert!(!buf.write_if_possible("e", d(12.0), d(0.0), None, Some(d(0.75))));
    assert!(buf.write_if_possible("e", d(12.0), d(0.0), None, Some(d(0.7499))));
    assert_eq!(buf.features_at(d(3.25), d(0.125)), vec![0]);
    assert!(buf.features_at(d(3.2500001), d(0.125)).is_empty());
    assert!(buf.features_at(d(3.25), d(0.1250001)).is_empty());
}

#[test]
fn labels_may_be_anywhere() {
    let mut buf = LabelBuffer::new();
    assert!(buf.write_if_possible("far", d(1e18), d(-1e18), None, None));
    assert!(!buf.write_if_possible("far", d(1e18), d(-1e18), None, None));
    assert!(buf.write_if_possible("far", d(-1e18), d(-1e18), None, None));
    assert_eq!(buf.features_at(d(5e17), d(-2.5e17)), vec![0]);
    assert_eq!(buf.entries.len(), 2);
}

#[test]
fn labels_may_be_infinitely_far_or_wide() {
    let (inf, down) = (f64::INFINITY, f64::NEG_INFINITY);
    let mut buf = LabelBuffer::new();
    assert!(buf.write_if_possible("a", d(inf), d(0.0), None, None));
    assert_eq!((f(buf.entries[0].min_x), f(buf.entries[0].max_x)), (inf, inf));
    assert!(!buf.write_if_possible("b", d(inf), d(0.0), None, None));
    assert!(buf.write_if_possible("c", d(down), d(0.0), None, None));
    assert!(buf.write_if_possible("d", d(0.0), d(0.0), None, None));
    assert!(!buf.write_if_possible("e", d(0.0), d(1e9), None, Some(d(inf))));
    assert_eq!(f(LabelBuffer::project(d(down), d(3.0)).0), down);
    buf.clear();
    assert!(buf.write_if_possible("e", d(0.0), d(1e9), None, Some(d(inf))));
    assert_eq!((f(buf.entries[0].min_y), f(buf.entries[0].max_y)), (down, inf));
}
