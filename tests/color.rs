use rust_render_101::color::RgbaColor;

#[test]
fn pack_and_unpack_channels() {
    let c = RgbaColor::argb_color(0x12, 0x34, 0x56, 0x78);
    assert_eq!(c, 0x1234_5678);
    assert_eq!(RgbaColor::color_alpha(c), 0x12);
    assert_eq!(RgbaColor::color_red(c), 0x34);
    assert_eq!(RgbaColor::color_green(c), 0x56);
    assert_eq!(RgbaColor::color_blue(c), 0x78);
}

#[test]
fn unpack_pack_round_trip_on_edges() {
    for &(a, r, g, b) in &[(0u8, 0u8, 0u8, 0u8), (255, 255, 255, 255), (1, 254, 128, 7)] {
        let c = RgbaColor::argb_color(a, r, g, b);
        assert_eq!(
            (RgbaColor::color_alpha(c), RgbaColor::color_red(c), RgbaColor::color_green(c), RgbaColor::color_blue(c)),
            (a, r, g, b)
        );
    }
}

#[test]
fn grey_and_rgb_are_opaque() {
    assert_eq!(RgbaColor::greyscale_color(50), 0xff32_3232);
    assert_eq!(RgbaColor::rgb_color(1, 2, 3), 0xff01_0203);
}

#[test]
fn opaque_top_replaces_bottom() {
    let bottom = RgbaColor::argb_color(100, 10, 20, 30);
    let top = RgbaColor::rgb_color(200, 150, 100);
    assert_eq!(RgbaColor::color_alpha_compose_color(bottom, top), top);
}

#[test]
fn transparent_top_keeps_bottom() {
    let bottom = RgbaColor::argb_color(100, 10, 20, 30);
    let top = RgbaColor::argb_color(0, 255, 255, 255);
    assert_eq!(RgbaColor::color_alpha_compose_color(bottom, top), bottom);
}

#[test]
fn two_transparent_colours_give_zero() {
    let bottom = RgbaColor::argb_color(0, 10, 20, 30);
    let top = RgbaColor::argb_color(0, 40, 50, 60);
    assert_eq!(RgbaColor::color_alpha_compose_color(bottom, top), 0);
}

#[test]
fn half_transparent_over_opaque() {
    // alpha: 255 + 128 - 255*128/255 = 255; red: (0*255*127 + 255*255*128) / 65025 = 128
    let bottom = RgbaColor::rgb_color(0, 0, 255);
    let top = RgbaColor::argb_color(128, 255, 0, 0);
    assert_eq!(RgbaColor::color_alpha_compose_color(bottom, top), 0xff80_007f);
}

#[test]
fn random_rgb_color_has_no_alpha() {
    for _ in 0..16 {
        assert_eq!(RgbaColor::color_alpha(RgbaColor::random_rgb_color()), 0);
    }
    let _ = RgbaColor::random_rgba_color();
}
