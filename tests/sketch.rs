use rust_render_101::color::RgbaColor;
use rust_render_101::sketch::Sketch;

#[test]
fn filled_rect_covers_its_inside_only() {
    let mut s = Sketch::new(64, 48);
    let grey = RgbaColor::greyscale_color(50);
    let white = RgbaColor::greyscale_color(255);
    s.background(grey);
    s.fill(white);
    s.no_stroke();
    s.rect(10, 10, 20, 20);
    assert_eq!(s.pixel(15, 15), Some(white));
    assert_eq!(s.pixel(5, 5), Some(grey));
    assert_eq!(s.pixel(10, 10), Some(white));
    assert_eq!(s.pixel(29, 29), Some(white));
    assert_eq!(s.pixel(30, 29), Some(grey));
    assert_eq!(s.pixel(64, 0), None);
}

#[test]
fn writes_off_the_surface_are_ignored() {
    let mut s = Sketch::new(4, 3);
    s.change_pixel(-1, 0, 0xffff_ffff);
    s.change_pixel(4, 0, 0xffff_ffff);
    s.change_pixel(0, 3, 0xffff_ffff);
    assert!(s.pixels().iter().all(|&p| p == 0));
    s.change_pixel(3, 2, 0xff12_3456);
    assert_eq!(s.pixels()[11], 0xff12_3456);
}

#[test]
fn stroked_line_uses_the_pen() {
    let mut s = Sketch::new(10, 10);
    s.stroke(0xffff_0000);
    s.stroke_weight(0);
    s.line(1, 1, 4, 1);
    for x in 0..10 {
        let expected = if (1..=4).contains(&x) { 0xffff_0000 } else { 0 };
        assert_eq!(s.pixel(x, 1), Some(expected));
    }
    assert_eq!(s.pixel(2, 2), Some(0));
}
