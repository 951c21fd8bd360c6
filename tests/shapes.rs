use rust_render_101::color::RgbaColor;
use rust_render_101::geometry::{ShapeType, StrokeMode};
use rust_render_101::input::{MouseButton, MouseEvent, MouseState};
use rust_render_101::sketch::{RgbImage, Sketch};
use rust_render_101::triangulate::triangulate_monotone;

const WHITE: u32 = 0xffff_ffff;

fn area2(a: (i32, i32), b: (i32, i32), c: (i32, i32)) -> i64 {
    (b.0 as i64 - a.0 as i64) * (c.1 as i64 - a.1 as i64) - (b.1 as i64 - a.1 as i64) * (c.0 as i64 - a.0 as i64)
}

fn shoelace(poly: &[(i32, i32)]) -> i64 {
    (0..poly.len())
        .map(|i| {
            let (a, b) = (poly[i], poly[(i + 1) % poly.len()]);
            a.0 as i64 * b.1 as i64 - b.0 as i64 * a.1 as i64
        })
        .sum()
}

#[test]
fn filled_triangle_covers_the_half_square() {
    let mut s = Sketch::new(10, 10);
    s.fill(WHITE);
    s.no_stroke();
    s.triangle(0, 0, 4, 0, 0, 4);
    for y in 0..10 {
        for x in 0..10 {
            let expected = if x + y <= 4 { WHITE } else { 0 };
            assert_eq!(s.pixel(x, y), Some(expected), "pixel ({}, {})", x, y);
        }
    }
}

#[test]
fn flat_triangle_is_one_row() {
    let mut s = Sketch::new(10, 3);
    s.fill(WHITE);
    s.no_stroke();
    s.triangle(2, 1, 6, 1, 4, 1);
    for x in 0..10 {
        let expected = if (2..=6).contains(&x) { WHITE } else { 0 };
        assert_eq!(s.pixel(x, 1), Some(expected));
    }
    assert_eq!(s.pixel(4, 0), Some(0));
}

#[test]
fn translucent_fill_paints_the_split_row_twice() {
    let mut s = Sketch::new(10, 10);
    s.background(RgbaColor::rgb_color(0, 0, 0));
    s.fill(RgbaColor::argb_color(128, 255, 255, 255));
    s.no_stroke();
    s.triangle(1, 1, 8, 5, 1, 8);
    let once = RgbaColor::color_alpha_compose_color(0xff00_0000, RgbaColor::argb_color(128, 255, 255, 255));
    let twice = RgbaColor::color_alpha_compose_color(once, RgbaColor::argb_color(128, 255, 255, 255));
    assert_eq!(s.pixel(2, 3), Some(once));
    assert_eq!(s.pixel(2, 5), Some(twice));
    assert_eq!(s.pixel(0, 0), Some(0xff00_0000));
}

#[test]
fn polygon_fill_uses_the_given_triangles() {
    let mut s = Sketch::new(8, 8);
    s.fill(WHITE);
    s.no_stroke();
    s.begin_shape(ShapeType::Polygon);
    s.vertex(1, 1);
    s.vertex(5, 1);
    s.vertex(5, 5);
    s.vertex(1, 5);
    s.end_shape(&vec![0, 1, 2, 0, 2, 3]);
    for y in 0..8 {
        for x in 0..8 {
            let inside = (1..=5).contains(&x) && (1..=5).contains(&y);
            assert_eq!(s.pixel(x, y), Some(if inside { WHITE } else { 0 }), "pixel ({}, {})", x, y);
        }
    }
}

#[test]
fn open_and_closed_splines() {
    let mut open = Sketch::new(8, 8);
    open.stroke(WHITE);
    open.stroke_weight(0);
    open.begin_shape(ShapeType::LinearSpline { loops: false });
    open.vertex(1, 1);
    open.vertex(5, 1);
    open.vertex(5, 5);
    open.end_shape(&Vec::new());
    assert_eq!(open.pixel(3, 1), Some(WHITE));
    assert_eq!(open.pixel(5, 3), Some(WHITE));
    assert_eq!(open.pixel(3, 3), Some(0));

    let mut closed = Sketch::new(8, 8);
    closed.stroke(WHITE);
    closed.stroke_weight(0);
    closed.begin_shape(ShapeType::LinearSpline { loops: true });
    closed.vertex(1, 1);
    closed.vertex(5, 1);
    closed.vertex(5, 5);
    closed.end_shape(&Vec::new());
    assert_eq!(closed.pixel(3, 3), Some(WHITE));
}

#[test]
fn holes_start_new_rings() {
    let mut s = Sketch::new(12, 12);
    s.no_fill();
    s.stroke(WHITE);
    s.stroke_weight(0);
    s.begin_shape(ShapeType::Polygon);
    s.vertex(0, 0);
    s.vertex(10, 0);
    s.vertex(10, 10);
    s.begin_hole();
    s.vertex(6, 4);
    s.vertex(8, 4);
    s.vertex(8, 6);
    assert_eq!(s.shape_holes(), &vec![3]);
    s.end_shape(&Vec::new());
    assert_eq!(s.pixel(5, 5), Some(WHITE));
    assert_eq!(s.pixel(7, 4), Some(WHITE));
    assert_eq!(s.pixel(8, 5), Some(WHITE));
    assert_eq!(s.pixel(2, 6), Some(0));
}

#[test]
fn square_pen_and_custom_pen() {
    let mut s = Sketch::new(9, 9);
    s.stroke(WHITE);
    s.stroke_weight(1);
    s.stroke_mode(StrokeMode::Square);
    s.line(4, 4, 4, 4);
    assert_eq!(s.pixel(4, 4), Some(0));
    assert_eq!(s.pixel(3, 3), Some(WHITE));
    assert_eq!(s.pixel(5, 4), Some(WHITE));

    let mut c = Sketch::new(9, 9);
    c.stroke(WHITE);
    c.stroke_mode(StrokeMode::Custom(vec![(2, 0)]));
    c.line(1, 1, 3, 1);
    assert_eq!(c.pixel(1, 1), Some(0));
    assert_eq!(c.pixel(3, 1), Some(WHITE));
    assert_eq!(c.pixel(5, 1), Some(WHITE));
}

#[test]
fn circle_fill_and_ring() {
    let mut s = Sketch::new(11, 11);
    s.fill(WHITE);
    s.no_stroke();
    s.circle(5, 5, 2);
    assert_eq!(s.pixel(5, 5), Some(WHITE));
    assert_eq!(s.pixel(7, 5), Some(WHITE));
    assert_eq!(s.pixel(6, 6), Some(WHITE));
    assert_eq!(s.pixel(7, 7), Some(0));

    let mut r = Sketch::new(11, 11);
    r.no_fill();
    r.stroke(WHITE);
    r.stroke_weight(0);
    r.circle(5, 5, 2);
    assert_eq!(r.pixel(5, 3), Some(WHITE));
    assert_eq!(r.pixel(5, 5), Some(0));
}

#[test]
fn glyph_coverage_is_alpha() {
    let mut s = Sketch::new(8, 8);
    s.fill(0xffff_0000);
    s.render_char(2, 2, 0, 0, &vec![255, 0, 128, 255], 3, 5);
    assert_eq!(s.pixel(3, 3), Some(0xffff_0000));
    assert_eq!(s.pixel(4, 3), Some(0));
    assert_eq!(s.pixel(3, 4), Some(0x80ff_0000));
    assert_eq!(s.pixel(4, 4), Some(0xffff_0000));
    assert_eq!(s.pixel(2, 3), Some(0));
}

#[test]
fn image_is_drawn_opaque_and_clipped() {
    let mut s = Sketch::new(3, 3);
    let img = RgbImage { width: 2, height: 1, data: vec![10, 20, 30, 40, 50, 60] };
    s.image(&img, 1, 2);
    assert_eq!(s.pixel(1, 2), Some(0xff0a_141e));
    assert_eq!(s.pixel(2, 2), Some(0xff28_323c));
    s.image(&img, 2, 0);
    assert_eq!(s.pixel(2, 0), Some(0xff0a_141e));
}

#[test]
fn rgb_bytes_drop_alpha() {
    let mut s = Sketch::new(2, 1);
    s.change_pixel(0, 0, 0xff01_0203);
    s.change_pixel(1, 0, 0xff04_0506);
    assert_eq!(s.to_rgb_bytes(), vec![1, 2, 3, 4, 5, 6]);
}

#[test]
fn mouse_press_and_release_edges() {
    let mut m = MouseState::new();
    assert_eq!(m.update(false, false, false), MouseEvent::Nothing);
    assert_eq!(m.update(false, true, true), MouseEvent::Pressed);
    assert_eq!(m.button, MouseButton::Right);
    assert_eq!(m.update(false, false, true), MouseEvent::Nothing);
    assert_eq!(m.button, MouseButton::Middle);
    assert_eq!(m.update(false, false, false), MouseEvent::Released);
    assert!(!m.is_pressed);
    assert_eq!(m.button, MouseButton::Middle);
}

#[test]
fn monotone_triangulation_cuts_the_top_ear() {
    let pts = vec![(0, 0), (10, 0), (10, 10), (0, 10)];
    let ts = triangulate_monotone(&pts, &vec![0, 1, 2], &vec![3]).unwrap();
    assert_eq!(ts, vec![(0, 1, 3), (1, 2, 3)]);
    let total: i64 = ts.iter().map(|&(a, b, c)| area2(pts[a], pts[b], pts[c])).sum();
    assert_eq!(total, shoelace(&pts));
}

#[test]
fn monotone_triangulation_prefers_the_highest_ear() {
    let pts = vec![(0, 0), (10, 1), (12, 2), (0, 20)];
    let ts = triangulate_monotone(&pts, &vec![0, 1, 2], &vec![3]).unwrap();
    assert_eq!(ts, vec![(0, 1, 2), (0, 2, 3)]);
    let total: i64 = ts.iter().map(|&(a, b, c)| area2(pts[a], pts[b], pts[c])).sum();
    assert_eq!(total, shoelace(&pts));
}

#[test]
fn monotone_triangulation_of_a_hexagon() {
    let pts = vec![(5, 0), (1, 3), (1, 7), (5, 10), (9, 7), (9, 3)];
    let main = vec![0, 1, 2, 3];
    let right = vec![5, 4];
    let ts = triangulate_monotone(&pts, &main, &right).unwrap();
    assert_eq!(ts.len(), pts.len() - 2);
    let boundary: Vec<(i32, i32)> = main.iter().chain(right.iter().rev()).map(|&i| pts[i]).collect();
    let total: i64 = ts.iter().map(|&(a, b, c)| area2(pts[a], pts[b], pts[c])).sum();
    assert_eq!(total, shoelace(&boundary));
}

#[test]
fn monotone_triangulation_needs_three_vertices() {
    let pts = vec![(0, 0), (1, 1)];
    assert_eq!(triangulate_monotone(&pts, &vec![0], &vec![1]), None);
}

#[test]
fn ear_clipping_a_convex_polygon() {
    let hexagon: Vec<(i32, i32)> = vec![(5, 0), (9, 3), (9, 7), (5, 10), (1, 7), (1, 3)];
    let coords: Vec<f64> = hexagon.iter().flat_map(|p| [p.0 as f64, p.1 as f64]).collect();
    let triangles = earcutr::earcut(&coords, &[], 2).unwrap();
    assert_eq!(triangles.len() / 3, hexagon.len() - 2);
    let total: i64 = triangles
        .chunks(3)
        .map(|t| area2(hexagon[t[0]], hexagon[t[1]], hexagon[t[2]]).abs())
        .sum();
    assert_eq!(total, shoelace(&hexagon).abs());

    let mut s = Sketch::new(12, 12);
    s.fill(WHITE);
    s.no_stroke();
    s.begin_shape(ShapeType::Polygon);
    for &(x, y) in &hexagon {
        s.vertex(x, y);
    }
    s.end_shape(&triangles);
    assert_eq!(s.pixel(5, 5), Some(WHITE));
    assert_eq!(s.pixel(0, 0), Some(0));
}
