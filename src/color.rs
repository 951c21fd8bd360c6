//! Packed 32-bit ARGB colours (alpha in the highest byte) and the "over"
//! compositing operator, computed exactly in integers and truncated to bytes.
use vstd::prelude::*;

verus! {

/// The colour with channels `a`, `r`, `g`, `b`, alpha in the highest byte.
pub open spec fn pack(a: int, r: int, g: int, b: int) -> int {
    a * 0x100_0000 + r * 0x1_0000 + g * 0x100 + b
}

pub open spec fn alpha_of(c: u32) -> int {
    c as int / 0x100_0000
}

pub open spec fn red_of(c: u32) -> int {
    (c as int / 0x1_0000) % 0x100
}

pub open spec fn green_of(c: u32) -> int {
    (c as int / 0x100) % 0x100
}

pub open spec fn blue_of(c: u32) -> int {
    c as int % 0x100
}

/// Alpha of `bottom` overlaid by `top`, scaled by 255 * 255:
/// `255 a_b + 255 a_t - a_b a_t`.
pub open spec fn over_alpha_scaled(bottom: u32, top: u32) -> int {
    255 * alpha_of(bottom) + 255 * alpha_of(top) - alpha_of(bottom) * alpha_of(top)
}

/// One colour channel of `bottom` overlaid by `top`, truncated to a byte;
/// `cb`, `ct` are the channel values of the two colours.
pub open spec fn over_channel(bottom: u32, cb: int, top: u32, ct: int) -> int {
    (255 * cb * alpha_of(bottom) + 255 * ct * alpha_of(top) - cb * alpha_of(bottom) * alpha_of(top))
        / over_alpha_scaled(bottom, top)
}

/// `top` composited over `bottom` with the "over" operator: with channels
/// read as fractions of 255, the result's alpha is `a_b + a_t - a_b a_t`
/// and each colour channel is `(c_b a_b + c_t a_t - c_b a_b a_t) / alpha`,
/// each truncated back to a byte. Two fully transparent colours give 0.
pub open spec fn over(bottom: u32, top: u32) -> int {
    if alpha_of(bottom) == 0 && alpha_of(top) == 0 {
        0
    } else {
        pack(
            over_alpha_scaled(bottom, top) / 255,
            over_channel(bottom, red_of(bottom), top, red_of(top)),
            over_channel(bottom, green_of(bottom), top, green_of(top)),
            over_channel(bottom, blue_of(bottom), top, blue_of(top)),
        )
    }
}

proof fn lemma_unpack(c: u32)
    ensures
        0 <= alpha_of(c) < 256,
        0 <= red_of(c) < 256,
        0 <= green_of(c) < 256,
        0 <= blue_of(c) < 256,
        c as int == pack(alpha_of(c), red_of(c), green_of(c), blue_of(c)),
{
    let x = c as int;
    assert(x == (x / 0x100_0000) * 0x100_0000 + ((x / 0x1_0000) % 0x100) * 0x1_0000 + ((x / 0x100)
        % 0x100) * 0x100 + x % 0x100) by (nonlinear_arith)
        requires 0 <= x < 0x1_0000_0000;
    assert(x / 0x100_0000 < 256) by (nonlinear_arith)
        requires 0 <= x < 0x1_0000_0000;
}

/// Packing four bytes and reading the channels back gives the same bytes.
pub proof fn lemma_pack_unpack(a: u8, r: u8, g: u8, b: u8)
    ensures
        0 <= pack(a as int, r as int, g as int, b as int) <= u32::MAX,
        ({
            let c = pack(a as int, r as int, g as int, b as int) as u32;
            alpha_of(c) == a && red_of(c) == r && green_of(c) == g && blue_of(c) == b
        }),
{
    let c = pack(a as int, r as int, g as int, b as int);
    let (ai, ri, gi, bi) = (a as int, r as int, g as int, b as int);
    assert(0 <= c <= u32::MAX) by (nonlinear_arith)
        requires
            c == ai * 0x100_0000 + ri * 0x1_0000 + gi * 0x100 + bi,
            0 <= ai < 256, 0 <= ri < 256, 0 <= gi < 256, 0 <= bi < 256;
    assert(c / 0x100_0000 == ai && (c / 0x1_0000) % 0x100 == ri && (c / 0x100) % 0x100 == gi
        && c % 0x100 == bi) by (nonlinear_arith)
        requires
            c == ai * 0x100_0000 + ri * 0x1_0000 + gi * 0x100 + bi,
            0 <= ai < 256, 0 <= ri < 256, 0 <= gi < 256, 0 <= bi < 256;
}

proof fn lemma_channel_bounds(pa: int, cb: int, qa: int, ct: int)
    requires
        0 <= pa < 256, 0 <= cb < 256, 0 <= qa < 256, 0 <= ct < 256,
        pa != 0 || qa != 0,
    ensures
        255 * pa + 255 * qa - pa * qa > 0,
        255 * pa + 255 * qa - pa * qa <= 65025,
        cb * pa * (255 - qa) >= 0,
        255 * ct * qa >= 0,
        cb * pa * (255 - qa) + 255 * ct * qa <= 255 * (255 * pa + 255 * qa - pa * qa),
        cb * pa * (255 - qa) + 255 * ct * qa == 255 * cb * pa + 255 * ct * qa - cb * pa * qa,
{
    assert(255 * pa + 255 * qa - pa * qa > 0) by (nonlinear_arith)
        requires 0 <= pa < 256, 0 <= qa < 256, pa != 0 || qa != 0;
    assert(255 * pa + 255 * qa - pa * qa <= 65025) by (nonlinear_arith)
        requires 0 <= pa < 256, 0 <= qa < 256;
    assert(cb * pa * (255 - qa) >= 0) by (nonlinear_arith)
        requires 0 <= pa < 256, 0 <= qa < 256, 0 <= cb;
    assert(255 * ct * qa >= 0) by (nonlinear_arith)
        requires 0 <= ct, 0 <= qa;
    assert(cb * pa * (255 - qa) <= 255 * pa * (255 - qa)) by (nonlinear_arith)
        requires 0 <= pa < 256, 0 <= qa < 256, 0 <= cb < 256;
    assert(255 * ct * qa <= 255 * 255 * qa) by (nonlinear_arith)
        requires 0 <= ct < 256, 0 <= qa;
    assert(cb * pa * (255 - qa) == 255 * cb * pa - cb * pa * qa) by (nonlinear_arith);
    assert(255 * (255 * pa + 255 * qa - pa * qa) == 255 * pa * (255 - qa) + 255 * 255 * qa)
        by (nonlinear_arith);
}

/// An opaque `top` hides `bottom` completely.
pub proof fn lemma_over_opaque_top(bottom: u32, top: u32)
    requires
        alpha_of(top) == 255,
    ensures
        over(bottom, top) == top,
{
    lemma_unpack(bottom);
    lemma_unpack(top);
    let pa = alpha_of(bottom);
    let den = over_alpha_scaled(bottom, top);
    assert(den == 65025);
    assert forall|cb: int, ct: int| 0 <= cb < 256 && 0 <= ct < 256 implies
        over_channel(bottom, cb, top, ct) == ct by {
        assert(255 * cb * pa + 255 * ct * 255 - cb * pa * 255 == 65025 * ct) by (nonlinear_arith);
        assert((65025 * ct) / 65025 == ct) by (nonlinear_arith);
    }
}

/// A fully transparent `top` leaves `bottom` as it was, unless `bottom` is
/// itself fully transparent with colour bits set: the result then is 0.
pub proof fn lemma_over_transparent_top(bottom: u32, top: u32)
    requires
        alpha_of(top) == 0,
        alpha_of(bottom) != 0 || bottom == 0,
    ensures
        over(bottom, top) == bottom,
{
    lemma_unpack(bottom);
    lemma_unpack(top);
    let pa = alpha_of(bottom);
    if pa != 0 {
        assert(over_alpha_scaled(bottom, top) == 255 * pa);
        assert((255 * pa) / 255 == pa) by (nonlinear_arith);
        assert forall|cb: int, ct: int| 0 <= cb < 256 && 0 <= ct < 256 implies
            over_channel(bottom, cb, top, ct) == cb by {
            assert(255 * cb * pa + 255 * ct * 0 - cb * pa * 0 == cb * (255 * pa)) by (nonlinear_arith);
            assert((cb * (255 * pa)) / (255 * pa) == cb) by (nonlinear_arith)
                requires pa > 0;
        }
    }
}

/// Relies on rand::random::<u32>: any 32-bit value, drawn from the thread's
/// generator; nothing is known of which.
#[verifier::external_body]
fn random_u32() -> (r: u32) {
    rand::random::<u32>()
}

pub struct RgbaColor {}

impl RgbaColor {
    /// A random colour whose alpha byte is cleared; the three colour
    /// channels are random.
    pub fn random_rgb_color() -> (c: u32)
        ensures
            alpha_of(c) == 0,
            c < 0x100_0000,
    {
        let mask: u32 = !(255u32 << 24u32);
        let bits = random_u32();
        let c = mask & bits;
        assert(c < 0x100_0000) by (bit_vector)
            requires mask == !(255u32 << 24u32), c == mask & bits;
        c
    }

    /// A random colour, alpha included (it may be transparent).
    pub fn random_rgba_color() -> (c: u32) {
        random_u32()
    }

    /// The opaque grey whose three colour channels are `g`.
    pub fn greyscale_color(g: u8) -> (c: u32)
        ensures
            c == pack(255, g as int, g as int, g as int),
    {
        Self::argb_color(255, g, g, g)
    }

    /// The opaque colour with channels `r`, `g`, `b`.
    pub fn rgb_color(r: u8, g: u8, b: u8) -> (c: u32)
        ensures
            c == pack(255, r as int, g as int, b as int),
    {
        Self::argb_color(255, r, g, b)
    }

    /// The colour with channels `a`, `r`, `g`, `b`.
    pub fn argb_color(a: u8, r: u8, g: u8, b: u8) -> (c: u32)
        ensures
            c == pack(a as int, r as int, g as int, b as int),
    {
        let (a32, r32, g32, b32) = (a as u32, r as u32, g as u32, b as u32);
        let c = (a32 << 24u32) | (r32 << 16u32) | (g32 << 8u32) | b32;
        assert(c == a32 * 0x100_0000 + r32 * 0x1_0000 + g32 * 0x100 + b32) by (bit_vector)
            requires
                c == (a32 << 24u32) | (r32 << 16u32) | (g32 << 8u32) | b32,
                a32 < 256, r32 < 256, g32 < 256, b32 < 256;
        c
    }

    /// The alpha channel of `color`.
    pub fn color_alpha(color: u32) -> (a: u8)
        ensures
            a == alpha_of(color),
    {
        let a = color >> 24u32;
        assert(a == color / 0x100_0000) by (bit_vector)
            requires a == color >> 24u32;
        a as u8
    }

    /// The red channel of `color`.
    pub fn color_red(color: u32) -> (r: u8)
        ensures
            r == red_of(color),
    {
        let r = (color >> 16u32) & 0xffu32;
        assert(r == (color / 0x1_0000) % 0x100) by (bit_vector)
            requires r == (color >> 16u32) & 0xffu32;
        r as u8
    }

    /// The green channel of `color`.
    pub fn color_green(color: u32) -> (g: u8)
        ensures
            g == green_of(color),
    {
        let g = (color >> 8u32) & 0xffu32;
        assert(g == (color / 0x100) % 0x100) by (bit_vector)
            requires g == (color >> 8u32) & 0xffu32;
        g as u8
    }

    /// The blue channel of `color`.
    pub fn color_blue(color: u32) -> (b: u8)
        ensures
            b == blue_of(color),
    {
        let b = color & 0xffu32;
        assert(b == color % 0x100) by (bit_vector)
            requires b == color & 0xffu32;
        b as u8
    }

    fn compose_channel(pa: u32, cb: u32, qa: u32, ct: u32, den: u32) -> (c: u8)
        requires
            pa < 256, cb < 256, qa < 256, ct < 256,
            pa != 0 || qa != 0,
            den == 255 * pa + 255 * qa - pa * qa,
        ensures
            c == (255 * cb * pa + 255 * ct * qa - cb * pa * qa) / (den as int),
    {
        proof {
            lemma_channel_bounds(pa as int, cb as int, qa as int, ct as int);
        }
        assert(cb * pa <= 255 * 255) by (nonlinear_arith)
            requires pa < 256, cb < 256;
        assert(cb * pa * (255 - qa) <= 255 * 255 * 255) by (nonlinear_arith)
            requires pa < 256, cb < 256, qa < 256;
        assert(255 * ct * qa <= 255 * 255 * 255) by (nonlinear_arith)
            requires ct < 256, qa < 256;
        let num = cb * pa * (255 - qa) + 255 * ct * qa;
        let c = num / den;
        assert(c <= 255) by (nonlinear_arith)
            requires c == num / den, num <= 255 * den, den > 0;
        c as u8
    }

    /// Composites `color_q` over `color_p` with the "over" operator: the
    /// second argument is the colour laid on top.
    pub fn color_alpha_compose_color(color_p: u32, color_q: u32) -> (c: u32)
        ensures
            c == over(color_p, color_q),
    {
        let pa = Self::color_alpha(color_p) as u32;
        let qa = Self::color_alpha(color_q) as u32;
        proof {
            lemma_unpack(color_p);
            lemma_unpack(color_q);
        }
        if pa == 0 && qa == 0 {
            return Self::argb_color(0, 0, 0, 0);
        }
        proof {
            lemma_channel_bounds(pa as int, 0, qa as int, 0);
        }
        assert(pa * qa <= 255 * pa) by (nonlinear_arith)
            requires pa < 256, qa < 256;
        let den = 255 * pa + 255 * qa - pa * qa;
        let r = Self::compose_channel(
            pa, Self::color_red(color_p) as u32, qa, Self::color_red(color_q) as u32, den);
        let g = Self::compose_channel(
            pa, Self::color_green(color_p) as u32, qa, Self::color_green(color_q) as u32, den);
        let b = Self::compose_channel(
            pa, Self::color_blue(color_p) as u32, qa, Self::color_blue(color_q) as u32, den);
        let a = den / 255;
        assert(a <= 255) by (nonlinear_arith)
            requires a == den / 255, den <= 65025;
        Self::argb_color(a as u8, r, g, b)
    }
}

} // verus!
