//! Tests of the canvas and its fills.

use mapscii::canvas::{Canvas, Point};
use mapscii::double::Double;
use mapscii::fill::{
    is_visible, open_ring_len, outer_mesh, polygon_mesh, polygon_triangles, remove_collinear,
    AreaStyle, Cut,
    FillStep, Mesh, TriangleRow,
};

fn d(x: f64) -> Double {
    Double::from_bits(x.to_bits())
}

fn f(x: Double) -> f64 {
    f64::from_bits(x.bits)
}

fn point(x: f64, y: f64) -> Point {
    Point::new(d(x), d(y))
}

fn turns(ring: &Vec<Point>) -> Vec<bool> {
    let n = open_ring_len(ring);
    (0..n)
        .map(|i| {
            let (a, b, c) = (&ring[(i + n - 1) % n], &ring[i], &ring[(i + 1) % n]);
            let cross = (f(b.x) - f(a.x)) * (f(c.y) - f(a.y)) - (f(b.y) - f(a.y)) * (f(c.x) - f(a.x));
            cross != 0.0
        })
        .collect()
}

fn triangulate(mesh: &Mesh) -> Vec<usize> {
    let vertices: Vec<f64> = mesh.vertices.iter().flat_map(|p| [f(p.x), f(p.y)]).collect();
    earcutr::earcut(&vertices, &mesh.holes, 2).unwrap_or_default()
}

fn triangle_crossings(rows: &[TriangleRow]) -> Vec<Vec<Double>> {
    rows.iter()
        .map(|row| {
            let yf = row.y as f64 + 0.5;
            row.sides
                .iter()
                .map(|(p, q)| {
                    let t = (yf - f(p.y)) / (f(q.y) - f(p.y));
                    d(f(p.x) + t * (f(q.x) - f(p.x)))
                })
                .collect()
        })
        .collect()
}

fn cut(rings: &Vec<Vec<Point>>, turns: &Vec<Vec<bool>>) -> Cut {
    let Some(mesh) = polygon_mesh(rings, turns) else {
        return Cut { whole: Vec::new(), outer: Vec::new() };
    };
    let whole = triangulate(&mesh);
    let outer = match mesh.next_step(!whole.is_empty()) {
        FillStep::RetryOuter => triangulate(&outer_mesh(rings, turns)),
        FillStep::Rasterize | FillStep::GiveUp => Vec::new(),
    };
    Cut { whole, outer }
}

fn crossings_of(
    canvas: &Canvas,
    rings: &Vec<Vec<Point>>,
    turns: &Vec<Vec<bool>>,
    cut: &Cut,
) -> Vec<Vec<Vec<Double>>> {
    polygon_triangles(rings, turns, cut)
        .unwrap_or_default()
        .iter()
        .map(|t| triangle_crossings(&canvas.triangle_rows(t.a, t.b, t.c)))
        .collect()
}

fn polygon_fill(canvas: &mut Canvas, rings: &Vec<Vec<Point>>, color: u8, opacity: f64) -> bool {
    let turns: Vec<Vec<bool>> = rings.iter().map(turns).collect();
    let cut = cut(rings, &turns);
    let crossings = crossings_of(canvas, rings, &turns, &cut);
    canvas.polygon_fill(rings, &turns, &cut, &crossings, color, d(opacity))
}

fn polygon(canvas: &mut Canvas, rings: &Vec<Vec<Point>>, color: u8) -> bool {
    let turns: Vec<Vec<bool>> = rings.iter().map(turns).collect();
    let cut = cut(rings, &turns);
    let crossings = crossings_of(canvas, rings, &turns, &cut);
    canvas.polygon(rings, &turns, &cut, &crossings, color)
}

fn lit(canvas: &Canvas) -> usize {
    let mut count = 0;
    for y in 0..canvas.height as i32 {
        for x in 0..canvas.width as i32 {
            if canvas.buffer.get_pixel_color(x, y) != 0 {
                count += 1;
            }
        }
    }
    count
}

#[test]
fn test_canvas_creation() {
    let c = Canvas::new(80, 40);
    assert_eq!(c.width, 80);
    assert_eq!(c.height, 40);
    assert_eq!(c.buffer.cols(), 40);
    assert_eq!(c.buffer.rows(), 10);
}

#[test]
fn test_polyline() {
    let mut c = Canvas::new(20, 8);
    let points = vec![point(0.0, 0.0), point(10.0, 0.0), point(10.0, 4.0)];
    c.polyline(&points, 1, d(1.0), &vec![]);
    for x in 0..=10 {
        assert_eq!(c.buffer.get_pixel_color(x, 0), 1);
    }
    for y in 0..=4 {
        assert_eq!(c.buffer.get_pixel_color(10, y), 1);
    }
    assert_eq!(lit(&c), 15);
}

#[test]
fn test_polygon_simple_triangle() {
    let mut c = Canvas::new(20, 8);
    let ring = vec![point(0.0, 0.0), point(10.0, 0.0), point(5.0, 7.0)];
    let result = polygon(&mut c, &vec![ring], 1);
    assert!(result);
    assert!(lit(&c) > 20);
    assert_eq!(c.buffer.get_pixel_color(5, 2), 1);
    assert_eq!(c.buffer.get_pixel_color(15, 2), 0);
}

#[test]
fn test_polygon_too_few_points() {
    let mut c = Canvas::new(20, 8);
    let ring = vec![point(0.0, 0.0), point(10.0, 0.0)];
    let result = polygon(&mut c, &vec![ring], 1);
    assert!(!result);
}

#[test]
fn a_transparent_polygon_has_no_pixels() {
    let mut c = Canvas::new(20, 8);
    let ring = vec![point(0.0, 0.0), point(10.0, 0.0), point(5.0, 7.0)];
    assert!(polygon_fill(&mut c, &vec![ring], 1, 0.0));
    assert_eq!(lit(&c), 0);
}

#[test]
fn a_half_transparent_polygon_is_dithered() {
    let square = || vec![point(0.0, 0.0), point(16.0, 0.0), point(16.0, 16.0), point(0.0, 16.0)];
    let mut solid = Canvas::new(16, 16);
    assert!(polygon_fill(&mut solid, &vec![square()], 1, 1.0));
    let mut half = Canvas::new(16, 16);
    assert!(polygon_fill(&mut half, &vec![square()], 1, 0.5));
    assert_eq!(lit(&solid), 256);
    assert_eq!(lit(&half), 128);
    // The threshold at the corner is zero, to its right one half.
    assert_eq!(half.buffer.get_pixel_color(0, 0), 1);
    assert_eq!(half.buffer.get_pixel_color(1, 0), 0);
}

#[test]
fn holes_stay_empty() {
    let mut c = Canvas::new(32, 32);
    let outer = vec![point(0.0, 0.0), point(30.0, 0.0), point(30.0, 30.0), point(0.0, 30.0)];
    let hole = vec![point(10.0, 10.0), point(20.0, 10.0), point(20.0, 20.0), point(10.0, 20.0)];
    assert!(polygon_fill(&mut c, &vec![outer, hole], 1, 1.0));
    assert_eq!(c.buffer.get_pixel_color(5, 5), 1);
    assert_eq!(c.buffer.get_pixel_color(15, 15), 0);
}

#[test]
fn a_polygon_that_cannot_be_cut_with_its_holes_is_filled_without_them() {
    let mut c = Canvas::new(32, 32);
    let outer = vec![point(0.0, 0.0), point(30.0, 0.0), point(30.0, 30.0), point(0.0, 30.0)];
    let hole = vec![point(10.0, 10.0), point(20.0, 10.0), point(20.0, 20.0), point(10.0, 20.0)];
    let rings = vec![outer, hole];
    let turns: Vec<Vec<bool>> = rings.iter().map(turns).collect();
    let mesh = polygon_mesh(&rings, &turns).unwrap();
    assert_eq!(mesh.holes, vec![4]);
    assert_eq!(mesh.next_step(false), FillStep::RetryOuter);
    let cut = Cut { whole: vec![], outer: triangulate(&outer_mesh(&rings, &turns)) };
    let crossings = crossings_of(&c, &rings, &turns, &cut);
    assert!(c.polygon(&rings, &turns, &cut, &crossings, 1));
    assert_eq!(c.buffer.get_pixel_color(5, 5), 1);
    assert_eq!(c.buffer.get_pixel_color(15, 15), 1);
}

#[test]
fn a_polygon_that_cannot_be_cut_is_not_filled() {
    let mut c = Canvas::new(32, 32);
    let rings = vec![vec![point(0.0, 0.0), point(30.0, 0.0), point(30.0, 30.0)]];
    let turns: Vec<Vec<bool>> = rings.iter().map(turns).collect();
    let cut = Cut { whole: vec![], outer: vec![] };
    assert!(polygon_triangles(&rings, &turns, &cut).is_none());
    assert!(!c.polygon_fill(&rings, &turns, &cut, &vec![], 1, d(0.5)));
    assert!(c.polygon_fill(&rings, &turns, &cut, &vec![], 1, d(0.0)));
    assert_eq!(lit(&c), 0);
}

#[test]
fn places_that_are_left_over_make_no_triangle() {
    let rings = vec![vec![point(0.0, 0.0), point(8.0, 0.0), point(8.0, 8.0), point(0.0, 8.0)]];
    let turns: Vec<Vec<bool>> = rings.iter().map(turns).collect();
    let cut = Cut { whole: vec![0, 1, 2, 3, 0], outer: vec![] };
    let triangles = polygon_triangles(&rings, &turns, &cut).unwrap();
    assert_eq!(triangles.len(), 1);
    assert_eq!((f(triangles[0].c.x), f(triangles[0].c.y)), (8.0, 8.0));
}

#[test]
fn greater_opacity_paints_more() {
    let square = || vec![point(0.0, 0.0), point(16.0, 0.0), point(16.0, 16.0), point(0.0, 16.0)];
    let mut before = 0;
    for sixteenths in 0..=16 {
        let mut c = Canvas::new(16, 16);
        assert!(polygon_fill(&mut c, &vec![square()], 1, sixteenths as f64 / 16.0));
        assert_eq!(lit(&c), 16 * sixteenths);
        assert!(sixteenths == 0 || lit(&c) > before);
        before = lit(&c);
    }
    assert!(!is_visible(&d(0.0)));
    assert!(is_visible(&d(1.0)));
}

#[test]
fn collinear_points_are_removed() {
    let ring = vec![
        point(0.0, 0.0),
        point(5.0, 0.0),
        point(10.0, 0.0),
        point(10.0, 10.0),
        point(0.0, 10.0),
        point(0.0, 0.0),
    ];
    let cleaned = remove_collinear(&ring, &turns(&ring));
    let found: Vec<(f64, f64)> = cleaned.iter().map(|p| (f(p.x), f(p.y))).collect();
    assert_eq!(found, vec![(0.0, 0.0), (10.0, 0.0), (10.0, 10.0), (0.0, 10.0)]);
}

fn scan_fill(c: &mut Canvas, rings: &Vec<Vec<Point>>, color: u8) {
    let rows = c.scan_rows(rings);
    let crossings = rows
        .iter()
        .map(|row| {
            let yf = row.y as f64 + 0.5;
            row.edges
                .iter()
                .map(|e| {
                    let t = (yf - e.y0 as f64) / (e.y1 as f64 - e.y0 as f64);
                    (e.x0 as f64 + t * (e.x1 - e.x0) as f64).round() as i32
                })
                .collect()
        })
        .collect();
    c.scanline_polygon_fill(&rows, &crossings, color);
}

#[test]
fn scanlines_fill_a_square() {
    let mut c = Canvas::new(20, 20);
    let ring = vec![point(2.0, 2.0), point(8.0, 2.0), point(8.0, 6.0), point(2.0, 6.0)];
    scan_fill(&mut c, &vec![ring], 3);
    assert_eq!(lit(&c), 7 * 4);
    assert_eq!(c.buffer.get_pixel_color(2, 2), 3);
    assert_eq!(c.buffer.get_pixel_color(8, 5), 3);
    assert_eq!(c.buffer.get_pixel_color(8, 6), 0);
}

#[test]
fn scanlines_leave_holes_out() {
    let mut c = Canvas::new(40, 40);
    let outer = vec![point(0.0, 0.0), point(30.0, 0.0), point(30.0, 30.0), point(0.0, 30.0)];
    let hole = vec![point(10.0, 10.0), point(20.0, 10.0), point(20.0, 20.0), point(10.0, 20.0)];
    scan_fill(&mut c, &vec![outer, hole], 3);
    assert_eq!(c.buffer.get_pixel_color(5, 15), 3);
    assert_eq!(c.buffer.get_pixel_color(15, 15), 0);
    assert_eq!(c.buffer.get_pixel_color(25, 15), 3);
}

#[test]
fn lines_join_their_ends() {
    let mut c = Canvas::new(20, 20);
    c.line(point(1.0, 2.0), point(17.0, 9.0), 4, d(1.0), 0);
    assert_eq!(c.buffer.get_pixel_color(1, 2), 4);
    assert_eq!(c.buffer.get_pixel_color(17, 9), 4);
    assert_eq!(lit(&c), 17);
}

#[test]
fn wide_lines_are_wider() {
    let reach = |dx: f64, dy: f64, width: f64| {
        let ed = if dx + dy == 0.0 { 1.0 } else { (dx * dx + dy * dy).sqrt() };
        let half = ((width - 1.0).max(0.0) + 1.0) / 2.0;
        (ed * half).ceil() as i64
    };
    let mut thin = Canvas::new(40, 40);
    thin.line(point(5.0, 20.0), point(30.0, 20.0), 2, d(1.0), 0);
    let mut wide = Canvas::new(40, 40);
    wide.line(point(5.0, 20.0), point(30.0, 20.0), 2, d(4.0), reach(25.0, 0.0, 4.0));
    assert_eq!(lit(&thin), 26);
    // One more pixel in each column.
    assert_eq!(lit(&wide), 52);
    let mut wider = Canvas::new(40, 40);
    wider.line(point(5.0, 20.0), point(30.0, 20.0), 2, d(6.0), reach(25.0, 0.0, 6.0));
    assert_eq!(lit(&wider), 78);
}

#[test]
fn a_stroke_closes_its_rings() {
    let mut c = Canvas::new(20, 20);
    let ring = vec![point(2.0, 2.0), point(10.0, 2.0), point(10.0, 10.0), point(2.0, 10.0)];
    c.polygon_stroke(&vec![ring], 6, d(1.0), &vec![]);
    assert_eq!(lit(&c), 32);
    assert_eq!(c.buffer.get_pixel_color(2, 6), 6);
}

#[test]
fn narrow_gaps_between_waters_are_bridged() {
    let mut c = Canvas::new(40, 40);
    for y in 0..40 {
        for x in 0..40 {
            if x < 18 || x > 20 {
                c.buffer.set_pixel(x, y, 69);
            }
        }
    }
    // Cells without any dot have no color, so the gap has to be read as empty.
    let before = lit(&c);
    c.bridge_fill(0, 0, 40, 69, 8);
    assert!(lit(&c) > before);
    assert_eq!(c.buffer.get_pixel_color(19, 20), 69);
}

#[test]
fn wide_gaps_and_barriers_stay() {
    let mut c = Canvas::new(40, 40);
    for y in 0..40 {
        for x in 0..40 {
            if x < 10 || x > 30 {
                c.buffer.set_pixel(x, y, 69);
            }
        }
    }
    c.bridge_fill(0, 0, 40, 69, 8);
    assert_eq!(c.buffer.get_pixel_color(20, 20), 0);
    // A single body of water has nothing to bridge to.
    let mut one = Canvas::new(40, 40);
    one.buffer.set_pixel(3, 3, 69);
    one.bridge_fill(0, 0, 40, 69, 8);
    assert_eq!(lit(&one), 1);
}

#[test]
fn gaps_of_several_pixels_are_filled_where_two_bodies_come() {
    // Within a gap a pixel learns of the second body from its neighbours.
    for (width, filled) in [(1, vec![16]), (3, vec![17, 18]), (4, vec![17, 18]), (8, vec![])] {
        let mut c = Canvas::new(40, 40);
        for y in 0..40 {
            for x in 0..40 {
                if x < 16 || x >= 16 + width {
                    c.buffer.set_pixel(x, y, 69);
                }
            }
        }
        c.bridge_fill(0, 0, 40, 69, 8);
        let found: Vec<i32> =
            (16..16 + width).filter(|&x| c.buffer.get_pixel_color(x, 20) == 69).collect();
        assert_eq!(found, filled);
    }
}

#[test]
fn a_line_that_goes_nowhere_is_one_pixel() {
    let mut c = Canvas::new(40, 40);
    c.line(point(7.0, 9.0), point(7.0, 9.0), 3, d(5.0), 100);
    assert_eq!(lit(&c), 1);
    assert_eq!(c.buffer.get_pixel_color(7, 9), 3);
}

#[test]
fn every_pixel_has_a_place_of_its_own() {
    for y in 0..8 {
        for x in 0..6 {
            let mut c = Canvas::new(6, 8);
            c.buffer.set_pixel(x, y, 1);
            assert_eq!(lit(&c), 1);
            assert_eq!(c.buffer.get_pixel_color(x, y), 1);
        }
    }
}

#[test]
fn outlines_cover_the_inside_of_an_area() {
    let rings = vec![vec![point(4.0, 4.0), point(20.0, 4.0), point(20.0, 20.0), point(4.0, 20.0)]];
    let turns: Vec<Vec<bool>> = rings.iter().map(turns).collect();
    let cut = cut(&rings, &turns);
    let draw = |fill: Option<u8>, stroke: Option<u8>| {
        let mut c = Canvas::new(32, 32);
        let crossings = crossings_of(&c, &rings, &turns, &cut);
        let style = AreaStyle { fill, opacity: d(1.0), stroke, width: d(1.0) };
        c.render_area_rings(&rings, &turns, &cut, &crossings, &vec![], &style);
        c
    };
    let both = draw(Some(2), Some(5));
    assert_eq!(both.buffer.get_pixel_color(12, 12), 2);
    assert_eq!(both.buffer.get_pixel_color(4, 12), 5);
    let inside = draw(Some(2), None);
    assert_eq!(inside.buffer.get_pixel_color(4, 12), 2);
    let outline = draw(None, Some(5));
    assert_eq!(outline.buffer.get_pixel_color(12, 12), 0);
    assert_eq!(outline.buffer.get_pixel_color(4, 12), 5);
    assert_eq!(lit(&draw(None, None)), 0);
}

#[test]
fn narrow_lines_are_lines_of_single_pixels() {
    let mut a = Canvas::new(40, 40);
    let mut b = Canvas::new(40, 40);
    a.draw_line((2, 3), (30, 17), &d(1.0), 0, 4, false);
    b.bresenham_line((2, 3), (30, 17), 4, false);
    assert_eq!(a.buffer.pixel_buffer, b.buffer.pixel_buffer);
    assert_eq!(a.buffer.foreground_buffer, b.buffer.foreground_buffer);
    assert_eq!(lit(&a), 29);
}
