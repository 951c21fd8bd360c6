//! The drawing surface: a row-major buffer of packed ARGB pixels with the
//! current fill and stroke settings and the shape under construction.
//! Writes outside the buffer are ignored.
use vstd::prelude::*;
use vstd::arithmetic::div_mod::lemma_fundamental_div_mod;
use crate::color::RgbaColor;
use crate::color::over;
use crate::color::lemma_over_opaque_top;
use crate::color::red_of;
use crate::color::green_of;
use crate::color::blue_of;
use crate::geometry::ShapeType;
use crate::geometry::StrokeMode;
use crate::line::line_points;
use crate::line::pair_view;
use crate::line::trace_line;
use crate::circle::circle_points;
use crate::circle::trace_circle;
use crate::mask::generate_mask;
use crate::mask::offset_view;
use crate::mask::pen_mask;

use crate::paint::fill_region;
use crate::paint::paint_region;
use crate::paint::at;
use crate::paint::mask_at;
use crate::paint::stroke_points;
use crate::paint::paint_stroke;
use crate::paint::stroke_segments;
use crate::paint::rect_sides;
use crate::paint::triangle_sides;
use crate::paint::in_circle;
use crate::paint::row_min;
use crate::paint::row_max;
use crate::paint::between_edges;
use crate::paint::flat_top;
use crate::paint::flat_bottom;
use crate::paint::triangle_halves;
use crate::paint::rows_fit;
use crate::paint::spline_from;
use crate::paint::holes_valid;
use crate::paint::vertex_rows_fit;
use crate::paint::fill_triangles;
use crate::paint::lemma_fill_triangles_none;
use crate::paint::lemma_stroke_segments_none;
use crate::paint::sort_vertices;
use crate::paint::split_point;
use crate::paint::row_minima;
use crate::paint::row_maxima;
use crate::paint::lemma_paint_stroke_append;
use crate::paint::lemma_paint_stroke_push;
use crate::paint::lemma_cell;
use crate::paint::lemma_index;
use crate::paint::lemma_fill_region_ext;
use crate::paint::lemma_fill_region_extend;
use crate::paint::paint_cells;
use crate::paint::grid_cover;
use crate::paint::grid_color;
use crate::paint::lemma_paint_cells_ext;
use crate::paint::lemma_paint_cells_step;
use crate::paint::image_colors;
use crate::paint::glyph_colors;
use crate::paint::filled;
verus! {

/// An image of `width` by `height` pixels, three bytes (red, green, blue)
/// per pixel, row by row.
pub struct RgbImage {
    pub width: u32,
    pub height: u32,
    pub data: Vec<u8>,
}

impl RgbImage {
    pub open spec fn wf(&self) -> bool {
        self.data@.len() == 3 * self.width * self.height
    }
}

/// A drawing surface with its pen settings.
pub struct Sketch {
    pixels: Vec<u32>,
    width: usize,
    height: usize,
    fill_color: Option<u32>,
    stroke_color: Option<u32>,
    stroke_weight: i8,
    stroke_mode: StrokeMode,
    shape_vertices: Vec<(i32, i32)>,
    shape_holes: Vec<usize>,
    shape_type: ShapeType,
}

impl Sketch {
    pub closed spec fn pixels_view(&self) -> Seq<u32> {
        self.pixels@
    }

    pub closed spec fn width_view(&self) -> int {
        self.width as int
    }

    pub closed spec fn height_view(&self) -> int {
        self.height as int
    }

    pub closed spec fn fill_view(&self) -> Option<u32> {
        self.fill_color
    }

    pub closed spec fn stroke_view(&self) -> Option<u32> {
        self.stroke_color
    }

    pub closed spec fn weight_view(&self) -> i8 {
        self.stroke_weight
    }

    pub closed spec fn mode_view(&self) -> StrokeMode {
        self.stroke_mode
    }

    pub closed spec fn vertices_view(&self) -> Seq<(i32, i32)> {
        self.shape_vertices@
    }

    pub closed spec fn holes_view(&self) -> Seq<usize> {
        self.shape_holes@
    }

    pub closed spec fn shape_view(&self) -> ShapeType {
        self.shape_type
    }

    /// The buffer holds `width * height` pixels, and coordinates fit `i32`.
    pub open spec fn wf(&self) -> bool {
        &&& self.pixels_view().len() == self.width_view() * self.height_view()
        &&& self.width_view() <= i32::MAX
        &&& self.height_view() <= i32::MAX
    }

    /// Everything but the pixels is as in `other`.
    pub open spec fn same_settings(&self, other: &Sketch) -> bool {
        &&& self.width_view() == other.width_view()
        &&& self.height_view() == other.height_view()
        &&& self.fill_view() == other.fill_view()
        &&& self.stroke_view() == other.stroke_view()
        &&& self.weight_view() == other.weight_view()
        &&& self.mode_view() == other.mode_view()
        &&& self.vertices_view() == other.vertices_view()
        &&& self.holes_view() == other.holes_view()
        &&& self.shape_view() == other.shape_view()
    }

    /// A transparent black `width` by `height` surface, filling and
    /// stroking in transparent black with a round pen of weight 1.
    pub fn new(width: usize, height: usize) -> (s: Sketch)
        requires
            width * height <= usize::MAX,
            width <= i32::MAX,
            height <= i32::MAX,
        ensures
            s.wf(),
            s.width_view() == width,
            s.height_view() == height,
            s.pixels_view() == Seq::new((width * height) as nat, |i: int| 0u32),
            s.fill_view() == Some(0u32),
            s.stroke_view() == Some(0u32),
            s.weight_view() == 1,
            s.mode_view() == StrokeMode::Circle,
            s.vertices_view().len() == 0,
            s.holes_view().len() == 0,
            s.shape_view() == ShapeType::Polygon,
    {
        Sketch {
            pixels: filled(width * height, 0),
            width,
            height,
            fill_color: Some(0),
            stroke_color: Some(0),
            stroke_weight: 1,
            stroke_mode: StrokeMode::Circle,
            shape_vertices: Vec::new(),
            shape_holes: Vec::new(),
            shape_type: ShapeType::Polygon,
        }
    }

    pub fn width(&self) -> (w: usize)
        ensures
            w == self.width_view(),
    {
        self.width
    }

    pub fn height(&self) -> (h: usize)
        ensures
            h == self.height_view(),
    {
        self.height
    }

    /// The current fill colour, if any.
    pub fn fill_color(&self) -> (c: Option<u32>)
        ensures
            c == self.fill_view(),
    {
        self.fill_color
    }

    /// The current stroke colour, if any.
    pub fn stroke_color(&self) -> (c: Option<u32>)
        ensures
            c == self.stroke_view(),
    {
        self.stroke_color
    }

    /// The whole buffer, row by row.
    pub fn pixels(&self) -> (p: &Vec<u32>)
        ensures
            p@ == self.pixels_view(),
    {
        &self.pixels
    }

    /// The pixel at `(x, y)`, if it lies on the surface.
    pub fn pixel(&self, x: i32, y: i32) -> (c: Option<u32>)
        requires
            self.wf(),
        ensures
            c == (if 0 <= x < self.width_view() && 0 <= y < self.height_view() {
                Some(self.pixels_view()[y * self.width_view() + x])
            } else {
                None
            }),
    {
        if x < 0 || y < 0 || x as i64 >= self.width as i64 || y as i64 >= self.height as i64 {
            return None;
        }
        proof {
            lemma_index(x as int, y as int, self.width as int, self.height as int);
        }
        let n = self.pixels.len();
        assert((y as int) * (self.width as int) + (x as int) < n);
        Some(self.pixels[x as usize + y as usize * self.width])
    }

    /// Composites `color` over the pixel at `(x, y)`, if it lies on the
    /// surface; an opaque colour simply replaces it.
    pub fn change_pixel(&mut self, x: i32, y: i32, color: u32)
        requires
            old(self).wf(),
        ensures
            final(self).wf(),
            final(self).same_settings(old(self)),
            final(self).pixels_view() == fill_region(
                old(self).pixels_view(),
                old(self).width_view(),
                color,
                at(x as int, y as int),
            ),
    {
        let ghost w = self.width as int;
        let ghost h = self.height as int;
        if x < 0 || y < 0 || x as i64 >= self.width as i64 || y as i64 >= self.height as i64 {
            proof {
                assert forall|a: int, b: int| 0 <= a < w && 0 <= b < h implies #[trigger] at(x as int, y as int)(
                    a, b) == (|a: int, b: int| false)(a, b) by {}
                lemma_fill_region_ext(
                    self.pixels@, w, h, color, at(x as int, y as int), |a: int, b: int| false);
                assert(fill_region(self.pixels@, w, color, |a: int, b: int| false) =~= self.pixels@);
            }
            return;
        }
        proof {
            lemma_index(x as int, y as int, w, h);
        }
        let n = self.pixels.len();
        assert((y as int) * (self.width as int) + (x as int) < n);
        let index = x as usize + y as usize * self.width;
        let old_color = self.pixels[index];
        let new_color = if RgbaColor::color_alpha(color) == 255 {
            proof {
                lemma_over_opaque_top(old_color, color);
            }
            color
        } else {
            RgbaColor::color_alpha_compose_color(old_color, color)
        };
        let ghost before = self.pixels@;
        self.pixels.set(index, new_color);
        proof {
            assert forall|k: int| 0 <= k < before.len() implies self.pixels@[k] == fill_region(
                before, w, color, at(x as int, y as int))[k] by {
                lemma_cell(k, w, h);
            }
            assert(self.pixels@ =~= fill_region(before, w, color, at(x as int, y as int)));
        }
    }

    /// Composites the fill colour, if any, over the pixel at `(x, y)`.
    pub fn fill_pixel(&mut self, x: i32, y: i32)
        requires
            old(self).wf(),
        ensures
            final(self).wf(),
            final(self).same_settings(old(self)),
            final(self).pixels_view() == paint_region(
                old(self).pixels_view(),
                old(self).width_view(),
                old(self).fill_view(),
                at(x as int, y as int),
            ),
    {
        if let Some(color) = self.fill_color {
            self.change_pixel(x, y, color);
        }
    }

    /// Composites the stroke colour, if any, over the pixel at `(x, y)`.
    pub fn stroke_pixel(&mut self, x: i32, y: i32)
        requires
            old(self).wf(),
        ensures
            final(self).wf(),
            final(self).same_settings(old(self)),
            final(self).pixels_view() == paint_region(
                old(self).pixels_view(),
                old(self).width_view(),
                old(self).stroke_view(),
                at(x as int, y as int),
            ),
    {
        if let Some(color) = self.stroke_color {
            self.change_pixel(x, y, color);
        }
    }

    /// Sets the fill colour.
    pub fn fill(&mut self, color: u32)
        ensures
            final(self).fill_view() == Some(color),
            final(self).pixels_view() == old(self).pixels_view(),
            final(self).width_view() == old(self).width_view(),
            final(self).height_view() == old(self).height_view(),
            final(self).stroke_view() == old(self).stroke_view(),
            final(self).weight_view() == old(self).weight_view(),
            final(self).mode_view() == old(self).mode_view(),
            final(self).vertices_view() == old(self).vertices_view(),
            final(self).holes_view() == old(self).holes_view(),
            final(self).shape_view() == old(self).shape_view(),
    {
        self.fill_color = Some(color);
    }

    /// Stops filling: shapes drawn from now on are hollow.
    pub fn no_fill(&mut self)
        ensures
            final(self).fill_view() == None::<u32>,
            final(self).pixels_view() == old(self).pixels_view(),
            final(self).width_view() == old(self).width_view(),
            final(self).height_view() == old(self).height_view(),
            final(self).stroke_view() == old(self).stroke_view(),
            final(self).weight_view() == old(self).weight_view(),
            final(self).mode_view() == old(self).mode_view(),
            final(self).vertices_view() == old(self).vertices_view(),
            final(self).holes_view() == old(self).holes_view(),
            final(self).shape_view() == old(self).shape_view(),
    {
        self.fill_color = None;
    }

    /// Sets the stroke colour.
    pub fn stroke(&mut self, color: u32)
        ensures
            final(self).stroke_view() == Some(color),
            final(self).pixels_view() == old(self).pixels_view(),
            final(self).width_view() == old(self).width_view(),
            final(self).height_view() == old(self).height_view(),
            final(self).fill_view() == old(self).fill_view(),
            final(self).weight_view() == old(self).weight_view(),
            final(self).mode_view() == old(self).mode_view(),
            final(self).vertices_view() == old(self).vertices_view(),
            final(self).holes_view() == old(self).holes_view(),
            final(self).shape_view() == old(self).shape_view(),
    {
        self.stroke_color = Some(color);
    }

    /// Stops stroking: shapes drawn from now on have no outline.
    pub fn no_stroke(&mut self)
        ensures
            final(self).stroke_view() == None::<u32>,
            final(self).pixels_view() == old(self).pixels_view(),
            final(self).width_view() == old(self).width_view(),
            final(self).height_view() == old(self).height_view(),
            final(self).fill_view() == old(self).fill_view(),
            final(self).weight_view() == old(self).weight_view(),
            final(self).mode_view() == old(self).mode_view(),
            final(self).vertices_view() == old(self).vertices_view(),
            final(self).holes_view() == old(self).holes_view(),
            final(self).shape_view() == old(self).shape_view(),
    {
        self.stroke_color = None;
    }

    /// Sets the thickness of outlines.
    pub fn stroke_weight(&mut self, weight: i8)
        ensures
            final(self).weight_view() == weight,
            final(self).pixels_view() == old(self).pixels_view(),
            final(self).width_view() == old(self).width_view(),
            final(self).height_view() == old(self).height_view(),
            final(self).fill_view() == old(self).fill_view(),
            final(self).stroke_view() == old(self).stroke_view(),
            final(self).mode_view() == old(self).mode_view(),
            final(self).vertices_view() == old(self).vertices_view(),
            final(self).holes_view() == old(self).holes_view(),
            final(self).shape_view() == old(self).shape_view(),
    {
        self.stroke_weight = weight;
    }

    /// Sets the pen shape of outlines.
    pub fn stroke_mode(&mut self, mode: StrokeMode)
        ensures
            final(self).mode_view() == mode,
            final(self).pixels_view() == old(self).pixels_view(),
            final(self).width_view() == old(self).width_view(),
            final(self).height_view() == old(self).height_view(),
            final(self).fill_view() == old(self).fill_view(),
            final(self).stroke_view() == old(self).stroke_view(),
            final(self).weight_view() == old(self).weight_view(),
            final(self).vertices_view() == old(self).vertices_view(),
            final(self).holes_view() == old(self).holes_view(),
            final(self).shape_view() == old(self).shape_view(),
    {
        self.stroke_mode = mode;
    }

    /// Paints every pixel `color`.
    pub fn background(&mut self, color: u32)
        requires
            old(self).wf(),
        ensures
            final(self).wf(),
            final(self).same_settings(old(self)),
            final(self).pixels_view() == Seq::new(old(self).pixels_view().len(), |i: int| color),
    {
        let n = self.pixels.len();
        self.pixels = filled(n, color);
    }

    /// Composites `color` over the pixels `(x, y)` with `xa <= x <= xb`.
    fn fill_span(&mut self, y: i64, xa: i64, xb: i64, color: u32)
        requires
            old(self).wf(),
        ensures
            final(self).wf(),
            final(self).same_settings(old(self)),
            final(self).pixels_view() == fill_region(
                old(self).pixels_view(),
                old(self).width_view(),
                color,
                |a: int, b: int| b == y && xa <= a <= xb,
            ),
    {
        let ghost w = self.width as int;
        let ghost h = self.height as int;
        let ghost px0 = self.pixels@;
        let ghost span = |a: int, b: int| b == y && xa <= a <= xb;
        if y < 0 || y >= self.height as i64 || xb < 0 || xa >= self.width as i64 || xa > xb {
            proof {
                assert forall|a: int, b: int| 0 <= a < w && 0 <= b < h implies #[trigger] span(a, b)
                    == (|a: int, b: int| false)(a, b) by {}
                lemma_fill_region_ext(px0, w, h, color, span, |a: int, b: int| false);
                assert(fill_region(px0, w, color, |a: int, b: int| false) =~= px0);
            }
            return;
        }
        let lo: i64 = if xa < 0 { 0 } else { xa };
        let hi: i64 = if xb >= self.width as i64 { self.width as i64 - 1 } else { xb };
        let mut x: i64 = lo;
        proof {
            assert(fill_region(px0, w, color, |a: int, b: int| b == y && lo <= a < lo) =~= px0);
        }
        while x <= hi
            invariant
                self.wf(),
                self.same_settings(old(self)),
                w == self.width_view(), h == self.height_view(),
                px0.len() == w * h,
                0 <= y < h,
                0 <= lo <= x <= hi + 1,
                hi < w,
                self.pixels_view() == fill_region(px0, w, color, |a: int, b: int| b == y && lo <= a < x),
            decreases hi - x + 1,
        {
            let ghost before = self.pixels@;
            let ghost p = |a: int, b: int| b == y && lo <= a < x;
            self.change_pixel(x as i32, y as i32, color);
            proof {
                let q = at(x as int, y as int);
                let r = |a: int, b: int| b == y && lo <= a < x + 1;
                assert forall|a: int, b: int| 0 <= a < w && 0 <= b < h implies #[trigger] r(a, b) == (
                    p(a, b) || q(a, b)) by {}
                lemma_fill_region_extend(px0, w, h, color, p, q, r);
            }
            x += 1;
        }
        proof {
            let p = |a: int, b: int| b == y && lo <= a < x;
            assert forall|a: int, b: int| 0 <= a < w && 0 <= b < h implies #[trigger] p(a, b) == span(
                a, b) by {}
            lemma_fill_region_ext(px0, w, h, color, p, span);
        }
    }

    /// Fills the `w` by `h` rectangle whose top-left corner is `(x, y)`.
    fn rect_fill(&mut self, x: i32, y: i32, w: i32, h: i32)
        requires
            old(self).wf(),
        ensures
            final(self).wf(),
            final(self).same_settings(old(self)),
            final(self).pixels_view() == paint_region(
                old(self).pixels_view(),
                old(self).width_view(),
                old(self).fill_view(),
                |a: int, b: int| x <= a < x + w && y <= b < y + h,
            ),
    {
        let color = match self.fill_color {
            Some(c) => c,
            None => {
                return;
            },
        };
        let ghost px0 = self.pixels@;
        let ghost sw = self.width as int;
        let ghost sh = self.height as int;
        let mut j: i64 = y as i64;
        let end: i64 = y as i64 + h as i64;
        proof {
            assert(fill_region(px0, sw, color, |a: int, b: int| x <= a < x + w && y <= b < y)
                =~= px0);
        }
        while j < end
            invariant
                self.wf(),
                self.same_settings(old(self)),
                sw == self.width_view(), sh == self.height_view(),
                px0.len() == sw * sh,
                y <= j,
                j <= end || j == y,
                end == y + h,
                self.pixels_view() == fill_region(
                    px0,
                    sw,
                    color,
                    |a: int, b: int| x <= a < x + w && y <= b < j,
                ),
            decreases end - j,
        {
            let ghost p = |a: int, b: int| x <= a < x + w && y <= b < j;
            self.fill_span(j, x as i64, x as i64 + w as i64 - 1, color);
            proof {
                let q = |a: int, b: int| b == j && x <= a <= x + w - 1;
                let r = |a: int, b: int| x <= a < x + w && y <= b < j + 1;
                assert forall|a: int, b: int| 0 <= a < sw && 0 <= b < sh implies #[trigger] r(a, b) == (
                    p(a, b) || q(a, b)) by {}
                lemma_fill_region_extend(px0, sw, sh, color, p, q, r);
            }
            j += 1;
        }
        proof {
            let p = |a: int, b: int| x <= a < x + w && y <= b < j;
            let r = |a: int, b: int| x <= a < x + w && y <= b < y + h;
            assert forall|a: int, b: int| 0 <= a < sw && 0 <= b < sh implies #[trigger] p(a, b) == r(
                a, b) by {}
            lemma_fill_region_ext(px0, sw, sh, color, p, r);
        }
    }

    /// Composites the stroke colour over the pixel at `(x, y)`, if any.
    fn stroke_at(&mut self, x: i64, y: i64)
        requires
            old(self).wf(),
        ensures
            final(self).wf(),
            final(self).same_settings(old(self)),
            final(self).pixels_view() == paint_region(
                old(self).pixels_view(),
                old(self).width_view(),
                old(self).stroke_view(),
                at(x as int, y as int),
            ),
    {
        if i32::MIN as i64 <= x && x <= i32::MAX as i64 && i32::MIN as i64 <= y && y
            <= i32::MAX as i64 {
            self.stroke_pixel(x as i32, y as i32);
        } else {
            proof {
                let w = self.width as int;
                let h = self.height as int;
                if let Some(c) = self.stroke_color {
                    assert forall|a: int, b: int| 0 <= a < w && 0 <= b < h implies #[trigger] at(
                        x as int, y as int)(a, b) == (|a: int, b: int| false)(a, b) by {}
                    lemma_fill_region_ext(
                        self.pixels@, w, h, c, at(x as int, y as int), |a: int, b: int| false);
                    assert(fill_region(self.pixels@, w, c, |a: int, b: int| false) =~= self.pixels@);
                }
            }
        }
    }

    /// Stamps the stroke colour with footprint `mask` centred at `(x, y)`.
    fn apply_mask_as_stroke(&mut self, x: i32, y: i32, mask: &Vec<(i8, i8)>)
        requires
            old(self).wf(),
        ensures
            final(self).wf(),
            final(self).same_settings(old(self)),
            final(self).pixels_view() == paint_stroke(
                old(self).pixels_view(),
                old(self).width_view(),
                old(self).stroke_view(),
                mask_at((x as int, y as int), offset_view(mask@)),
            ),
    {
        let ghost px0 = self.pixels@;
        let ghost pts = mask_at((x as int, y as int), offset_view(mask@));
        let mut j: usize = 0;
        assert(pts.take(0) =~= Seq::<(int, int)>::empty());
        while j < mask.len()
            invariant
                self.wf(),
                self.same_settings(old(self)),
                j <= mask@.len(),
                pts == mask_at((x as int, y as int), offset_view(mask@)),
                self.pixels_view() == paint_stroke(px0, self.width_view(), self.stroke_view(), pts.take(j as int)),
            decreases mask@.len() - j,
        {
            let (di, dj) = mask[j];
            self.stroke_at(x as i64 + di as i64, y as i64 + dj as i64);
            proof {
                assert(pts.take(j + 1) =~= pts.take(j as int).push(pts[j as int]));
                lemma_paint_stroke_push(px0, self.width_view(), self.stroke_view(), pts.take(j as int), pts[j as int]);
            }
            j += 1;
        }
        assert(pts.take(j as int) =~= pts);
    }

    /// Stamps the pen at each point of `trace` in turn.
    fn stroke_trace(&mut self, trace: &Vec<(i32, i32)>, mask: &Vec<(i8, i8)>)
        requires
            old(self).wf(),
        ensures
            final(self).wf(),
            final(self).same_settings(old(self)),
            final(self).pixels_view() == paint_stroke(
                old(self).pixels_view(),
                old(self).width_view(),
                old(self).stroke_view(),
                stroke_points(pair_view(trace@), offset_view(mask@)),
            ),
    {
        let ghost px0 = self.pixels@;
        let ghost m = offset_view(mask@);
        let ghost groups = Seq::new(trace@.len(), |k: int| mask_at(pair_view(trace@)[k], m));
        let mut k: usize = 0;
        assert(groups.take(0).flatten() =~= Seq::<(int, int)>::empty()) by {
            assert(groups.take(0) =~= Seq::<Seq<(int, int)>>::empty());
        }
        while k < trace.len()
            invariant
                self.wf(),
                self.same_settings(old(self)),
                k <= trace@.len(),
                m == offset_view(mask@),
                groups == Seq::new(trace@.len(), |k: int| mask_at(pair_view(trace@)[k], m)),
                self.pixels_view() == paint_stroke(px0, self.width_view(), self.stroke_view(),
                    groups.take(k as int).flatten()),
            decreases trace@.len() - k,
        {
            let ghost before = self.pixels@;
            let (x, y) = trace[k];
            self.apply_mask_as_stroke(x, y, mask);
            proof {
                assert(groups.take(k + 1) =~= groups.take(k as int).push(groups[k as int]));
                groups.take(k as int).lemma_flatten_push(groups[k as int]);
                lemma_paint_stroke_append(px0, self.width_view(), self.stroke_view(),
                    groups.take(k as int).flatten(), groups[k as int]);
            }
            k += 1;
        }
        assert(groups.take(k as int) =~= groups);
    }

    /// Draws the segment from `(x0, y0)` to `(x1, y1)` with the current pen:
    /// its footprint is stamped in the stroke colour at each point of the
    /// traced line, in order.
    pub fn line(&mut self, x0: i32, y0: i32, x1: i32, y1: i32)
        requires
            old(self).wf(),
        ensures
            final(self).wf(),
            final(self).same_settings(old(self)),
            final(self).pixels_view() == paint_stroke(
                old(self).pixels_view(),
                old(self).width_view(),
                old(self).stroke_view(),
                stroke_points(
                    line_points(x0 as int, y0 as int, x1 as int, y1 as int),
                    pen_mask(old(self).mode_view(), old(self).weight_view()),
                ),
            ),
    {
        let mask = generate_mask(&self.stroke_mode, self.stroke_weight);
        let trace = trace_line(x0, y0, x1, y1);
        self.stroke_trace(&trace, &mask);
    }

    /// Strokes the four sides of the `w` by `h` rectangle at `(x, y)`.
    fn rect_stroke(&mut self, x: i32, y: i32, w: i32, h: i32)
        requires
            old(self).wf(),
            i32::MIN <= x + w <= i32::MAX,
            i32::MIN <= y + h <= i32::MAX,
        ensures
            final(self).wf(),
            final(self).same_settings(old(self)),
            final(self).pixels_view() == stroke_segments(
                old(self).pixels_view(),
                old(self).width_view(),
                old(self).stroke_view(),
                pen_mask(old(self).mode_view(), old(self).weight_view()),
                rect_sides(x as int, y as int, w as int, h as int),
            ),
    {
        let ghost sides = rect_sides(x as int, y as int, w as int, h as int);
        proof {
            assert(sides.drop_last() =~= seq![sides[0], sides[1], sides[2]]);
            assert(sides.drop_last().drop_last() =~= seq![sides[0], sides[1]]);
            assert(sides.drop_last().drop_last().drop_last() =~= seq![sides[0]]);
            assert(sides.drop_last().drop_last().drop_last().drop_last() =~= Seq::<
                (int, int, int, int),
            >::empty());
        }
        self.line(x, y, x + w, y);
        self.line(x, y, x, y + h);
        self.line(x, y + h, x + w, y + h);
        self.line(x + w, y, x + w, y + h);
        proof {
            reveal_with_fuel(stroke_segments, 5);
        }
    }

    /// Draws the `w` by `h` rectangle whose top-left corner is `(x, y)`:
    /// filled if there is a fill colour, then outlined if there is a stroke
    /// colour.
    pub fn rect(&mut self, x: i32, y: i32, w: i32, h: i32)
        requires
            old(self).wf(),
            i32::MIN <= x + w <= i32::MAX,
            i32::MIN <= y + h <= i32::MAX,
        ensures
            final(self).wf(),
            final(self).same_settings(old(self)),
            final(self).pixels_view() == stroke_segments(
                paint_region(
                    old(self).pixels_view(),
                    old(self).width_view(),
                    old(self).fill_view(),
                    |a: int, b: int| x <= a < x + w && y <= b < y + h,
                ),
                old(self).width_view(),
                old(self).stroke_view(),
                pen_mask(old(self).mode_view(), old(self).weight_view()),
                rect_sides(x as int, y as int, w as int, h as int),
            ),
    {
        if self.fill_color.is_some() {
            self.rect_fill(x, y, w, h);
        }
        if self.stroke_color.is_some() {
            self.rect_stroke(x, y, w, h);
        }
        proof {
            reveal_with_fuel(stroke_segments, 5);
        }
    }

    /// Strokes the three sides of the triangle `(x0, y0)`, `(x1, y1)`,
    /// `(x2, y2)`.
    fn triangle_stroke(&mut self, x0: i32, y0: i32, x1: i32, y1: i32, x2: i32, y2: i32)
        requires
            old(self).wf(),
        ensures
            final(self).wf(),
            final(self).same_settings(old(self)),
            final(self).pixels_view() == stroke_segments(
                old(self).pixels_view(),
                old(self).width_view(),
                old(self).stroke_view(),
                pen_mask(old(self).mode_view(), old(self).weight_view()),
                triangle_sides(x0 as int, y0 as int, x1 as int, y1 as int, x2 as int, y2 as int),
            ),
    {
        let ghost sides = triangle_sides(
            x0 as int, y0 as int, x1 as int, y1 as int, x2 as int, y2 as int);
        proof {
            assert(sides.drop_last() =~= seq![sides[0], sides[1]]);
            assert(sides.drop_last().drop_last() =~= seq![sides[0]]);
            assert(sides.drop_last().drop_last().drop_last() =~= Seq::<
                (int, int, int, int),
            >::empty());
        }
        self.line(x0, y0, x1, y1);
        self.line(x0, y0, x2, y2);
        self.line(x2, y2, x1, y1);
        proof {
            reveal_with_fuel(stroke_segments, 4);
        }
    }

    /// Stamps the pen along the midpoint circle of radius `r` about
    /// `(xc, yc)`.
    fn circle_stroke(&mut self, xc: i32, yc: i32, r: i32)
        requires
            old(self).wf(),
            r < 0 || (i32::MIN <= xc - r && xc + r <= i32::MAX && i32::MIN <= yc - r && yc + r
                <= i32::MAX),
        ensures
            final(self).wf(),
            final(self).same_settings(old(self)),
            final(self).pixels_view() == paint_stroke(
                old(self).pixels_view(),
                old(self).width_view(),
                old(self).stroke_view(),
                stroke_points(
                    circle_points(xc as int, yc as int, r as int),
                    pen_mask(old(self).mode_view(), old(self).weight_view()),
                ),
            ),
    {
        let mask = generate_mask(&self.stroke_mode, self.stroke_weight);
        let circle = trace_circle(xc, yc, r);
        self.stroke_trace(&circle, &mask);
    }

    /// Fills the disk of radius `r` about `(xc, yc)`.
    fn circle_fill(&mut self, xc: i32, yc: i32, r: i32)
        requires
            old(self).wf(),
            r < 0 || (i32::MIN <= xc - r && xc + r <= i32::MAX && i32::MIN <= yc - r && yc + r
                <= i32::MAX),
        ensures
            final(self).wf(),
            final(self).same_settings(old(self)),
            final(self).pixels_view() == paint_region(
                old(self).pixels_view(),
                old(self).width_view(),
                old(self).fill_view(),
                |a: int, b: int| in_circle(a, b, xc as int, yc as int, r as int),
            ),
    {
        let color = match self.fill_color {
            Some(c) => c,
            None => {
                return;
            },
        };
        let ghost px0 = self.pixels@;
        let ghost sw = self.width as int;
        let ghost sh = self.height as int;
        let ghost disk = |a: int, b: int| in_circle(a, b, xc as int, yc as int, r as int);
        if r < 0 {
            proof {
                assert forall|a: int, b: int| 0 <= a < sw && 0 <= b < sh implies #[trigger] disk(a, b)
                    == (|a: int, b: int| false)(a, b) by {}
                lemma_fill_region_ext(px0, sw, sh, color, disk, |a: int, b: int| false);
                assert(fill_region(px0, sw, color, |a: int, b: int| false) =~= px0);
            }
            return;
        }
        let r64 = r as i64;
        let mut xi: i64 = -r64;
        proof {
            let p = |a: int, b: int| disk(a, b) && a - xc < -r64;
            assert forall|a: int, b: int| 0 <= a < sw && 0 <= b < sh implies #[trigger] p(a, b)
                == (|a: int, b: int| false)(a, b) by {}
            lemma_fill_region_ext(px0, sw, sh, color, p, |a: int, b: int| false);
            assert(fill_region(px0, sw, color, |a: int, b: int| false) =~= px0);
        }
        while xi <= r64
            invariant
                self.wf(),
                self.same_settings(old(self)),
                self.fill_view() == Some(color),
                sw == self.width_view(), sh == self.height_view(),
                px0.len() == sw * sh,
                0 <= r64 == r,
                i32::MIN <= xc - r && xc + r <= i32::MAX && i32::MIN <= yc - r && yc + r <= i32::MAX,
                -r64 <= xi <= r64 + 1,
                disk == (|a: int, b: int| in_circle(a, b, xc as int, yc as int, r as int)),
                self.pixels_view() == fill_region(px0, sw, color, |a: int, b: int| disk(a, b) && a - xc < xi),
            decreases r64 - xi + 1,
        {
            let mut yi: i64 = -r64;
            proof {
                let p = |a: int, b: int| disk(a, b) && a - xc < xi;
                let q = |a: int, b: int| disk(a, b) && (a - xc < xi || (a - xc == xi && b - yc < -r64));
                assert forall|a: int, b: int| 0 <= a < sw && 0 <= b < sh implies #[trigger] p(a, b)
                    == q(a, b) by {}
                lemma_fill_region_ext(px0, sw, sh, color, p, q);
            }
            while yi <= r64
                invariant
                    self.wf(),
                    self.same_settings(old(self)),
                    self.fill_view() == Some(color),
                    sw == self.width_view(), sh == self.height_view(),
                    px0.len() == sw * sh,
                    0 <= r64 == r,
                    i32::MIN <= xc - r && xc + r <= i32::MAX && i32::MIN <= yc - r && yc + r <= i32::MAX,
                    -r64 <= xi <= r64,
                    -r64 <= yi <= r64 + 1,
                    disk == (|a: int, b: int| in_circle(a, b, xc as int, yc as int, r as int)),
                    self.pixels_view() == fill_region(px0, sw, color,
                        |a: int, b: int| disk(a, b) && (a - xc < xi || (a - xc == xi && b - yc < yi))),
                decreases r64 - yi + 1,
            {
                assert(0 <= xi * xi <= r64 * r64 && 0 <= yi * yi <= r64 * r64) by (nonlinear_arith)
                    requires -r64 <= xi <= r64, -r64 <= yi <= r64;
                assert(r64 * r64 <= 0x3fff_ffff_0000_0001) by (nonlinear_arith)
                    requires 0 <= r64 <= 0x7fff_ffff;
                if xi * xi + yi * yi <= r64 * r64 {
                    let ghost p = |a: int, b: int| disk(a, b) && (a - xc < xi || (a - xc == xi && b - yc < yi));
                    self.fill_pixel((xc as i64 + xi) as i32, (yc as i64 + yi) as i32);
                    proof {
                        let q = at(xc + xi, yc + yi);
                        let r2 = |a: int, b: int| disk(a, b) && (a - xc < xi || (a - xc == xi && b - yc < yi + 1));
                        assert forall|a: int, b: int| 0 <= a < sw && 0 <= b < sh implies #[trigger] r2(a, b)
                            == (p(a, b) || q(a, b)) by {}
                        lemma_fill_region_extend(px0, sw, sh, color, p, q, r2);
                    }
                } else {
                    proof {
                        let p = |a: int, b: int| disk(a, b) && (a - xc < xi || (a - xc == xi && b - yc < yi));
                        let r2 = |a: int, b: int| disk(a, b) && (a - xc < xi || (a - xc == xi && b - yc < yi + 1));
                        assert forall|a: int, b: int| 0 <= a < sw && 0 <= b < sh implies #[trigger] p(a, b)
                            == r2(a, b) by {}
                        lemma_fill_region_ext(px0, sw, sh, color, p, r2);
                    }
                }
                yi += 1;
            }
            proof {
                let p = |a: int, b: int| disk(a, b) && (a - xc < xi || (a - xc == xi && b - yc < yi));
                let q = |a: int, b: int| disk(a, b) && a - xc < xi + 1;
                assert forall|a: int, b: int| 0 <= a < sw && 0 <= b < sh implies #[trigger] p(a, b)
                    == q(a, b) by {}
                lemma_fill_region_ext(px0, sw, sh, color, p, q);
            }
            xi += 1;
        }
        proof {
            let p = |a: int, b: int| disk(a, b) && a - xc < xi;
            assert forall|a: int, b: int| 0 <= a < sw && 0 <= b < sh implies #[trigger] p(a, b)
                == disk(a, b) by {}
            lemma_fill_region_ext(px0, sw, sh, color, p, disk);
        }
    }

    /// Draws the circle of radius `r` about `(xc, yc)`: the disk filled if
    /// there is a fill colour, then the ring stroked if there is a stroke
    /// colour.
    pub fn circle(&mut self, xc: i32, yc: i32, r: i32)
        requires
            old(self).wf(),
            r < 0 || (i32::MIN <= xc - r && xc + r <= i32::MAX && i32::MIN <= yc - r && yc + r
                <= i32::MAX),
        ensures
            final(self).wf(),
            final(self).same_settings(old(self)),
            final(self).pixels_view() == paint_stroke(
                paint_region(
                    old(self).pixels_view(),
                    old(self).width_view(),
                    old(self).fill_view(),
                    |a: int, b: int| in_circle(a, b, xc as int, yc as int, r as int),
                ),
                old(self).width_view(),
                old(self).stroke_view(),
                stroke_points(
                    circle_points(xc as int, yc as int, r as int),
                    pen_mask(old(self).mode_view(), old(self).weight_view()),
                ),
            ),
    {
        if self.fill_color.is_some() {
            self.circle_fill(xc, yc, r);
        }
        if self.stroke_color.is_some() {
            self.circle_stroke(xc, yc, r);
        }
    }

    /// Fills rows `ylo` to `yhi`, each from the leftmost point of `left` to
    /// the rightmost point of `right` on that row.
    fn fill_between(&mut self, left: &Vec<(i32, i32)>, right: &Vec<(i32, i32)>, ylo: i32, yhi: i32, color: u32)
        requires
            old(self).wf(),
            ylo <= yhi,
            yhi - ylo < usize::MAX,
        ensures
            final(self).wf(),
            final(self).same_settings(old(self)),
            final(self).pixels_view() == fill_region(
                old(self).pixels_view(),
                old(self).width_view(),
                color,
                between_edges(pair_view(left@), pair_view(right@), ylo as int, yhi as int),
            ),
    {
        let n = (yhi as i64 - ylo as i64 + 1) as usize;
        let min_left = row_minima(left, ylo as i64, n);
        let max_right = row_maxima(right, ylo as i64, n);
        let ghost px0 = self.pixels@;
        let ghost sw = self.width as int;
        let ghost sh = self.height as int;
        let ghost cover = between_edges(pair_view(left@), pair_view(right@), ylo as int, yhi as int);
        let mut i: usize = 0;
        proof {
            let p = |a: int, b: int| cover(a, b) && b < ylo + 0;
            assert forall|a: int, b: int| 0 <= a < sw && 0 <= b < sh implies #[trigger] p(a, b)
                == (|a: int, b: int| false)(a, b) by {}
            lemma_fill_region_ext(px0, sw, sh, color, p, |a: int, b: int| false);
            assert(fill_region(px0, sw, color, |a: int, b: int| false) =~= px0);
        }
        while i < n
            invariant
                self.wf(),
                self.same_settings(old(self)),
                sw == self.width_view(), sh == self.height_view(),
                px0.len() == sw * sh,
                n == yhi - ylo + 1,
                i <= n,
                min_left@.len() == n, max_right@.len() == n,
                forall|j: int| 0 <= j < n ==> min_left@[j] == row_min(pair_view(left@), ylo + j),
                forall|j: int| 0 <= j < n ==> max_right@[j] == row_max(pair_view(right@), ylo + j),
                cover == between_edges(pair_view(left@), pair_view(right@), ylo as int, yhi as int),
                self.pixels_view() == fill_region(px0, sw, color, |a: int, b: int| cover(a, b) && b < ylo + i),
            decreases n - i,
        {
            let y = ylo as i64 + i as i64;
            let ghost p = |a: int, b: int| cover(a, b) && b < ylo + i;
            self.fill_span(y, min_left[i] as i64, max_right[i] as i64, color);
            proof {
                let q = |a: int, b: int| b == y && min_left@[i as int] <= a <= max_right@[i as int];
                let r = |a: int, b: int| cover(a, b) && b < ylo + i + 1;
                assert forall|a: int, b: int| 0 <= a < sw && 0 <= b < sh implies #[trigger] r(a, b)
                    == (p(a, b) || q(a, b)) by {}
                lemma_fill_region_extend(px0, sw, sh, color, p, q, r);
            }
            i += 1;
        }
        proof {
            let p = |a: int, b: int| cover(a, b) && b < ylo + i;
            assert forall|a: int, b: int| 0 <= a < sw && 0 <= b < sh implies #[trigger] p(a, b)
                == cover(a, b) by {}
            lemma_fill_region_ext(px0, sw, sh, color, p, cover);
        }
    }

    /// Fills the flat-based triangle with base from `(x0, y0)` to
    /// `(x0 + base, y0)` and apex `(x1, y1)` on the side of greater y (`y1 >= y0`).
    fn triangle_flat_top(&mut self, x0: i32, y0: i32, base: i64, x1: i32, y1: i32, color: u32)
        requires
            old(self).wf(),
            y0 <= y1,
            y1 - y0 < usize::MAX,
            i32::MIN <= x0 + base <= i32::MAX,
        ensures
            final(self).wf(),
            final(self).same_settings(old(self)),
            final(self).pixels_view() == fill_region(
                old(self).pixels_view(),
                old(self).width_view(),
                color,
                flat_top(x0 as int, y0 as int, base as int, x1 as int, y1 as int),
            ),
    {
        let left_edge = trace_line(x0, y0, x1, y1);
        let right_edge = trace_line((x0 as i64 + base) as i32, y0, x1, y1);
        self.fill_between(&left_edge, &right_edge, y0, y1, color);
    }

    /// Fills the flat-based triangle with base from `(x0, y0)` to
    /// `(x0 + base, y0)` and apex `(x1, y1)` on the side of smaller y (`y1 <= y0`).
    fn triangle_flat_bottom(&mut self, x0: i32, y0: i32, base: i64, x1: i32, y1: i32, color: u32)
        requires
            old(self).wf(),
            y1 <= y0,
            y0 - y1 < usize::MAX,
            i32::MIN <= x0 + base <= i32::MAX,
        ensures
            final(self).wf(),
            final(self).same_settings(old(self)),
            final(self).pixels_view() == fill_region(
                old(self).pixels_view(),
                old(self).width_view(),
                color,
                flat_bottom(x0 as int, y0 as int, base as int, x1 as int, y1 as int),
            ),
    {
        let left_edge = trace_line(x1, y1, x0, y0);
        let right_edge = trace_line(x1, y1, (x0 as i64 + base) as i32, y0);
        self.fill_between(&left_edge, &right_edge, y1, y0, color);
    }

    /// Fills the triangle `(x0, y0)`, `(x1, y1)`, `(x2, y2)`: the vertices
    /// are ordered by y, the row of the middle one splits it into two
    /// flat-based halves, and each half is filled row by row.
    fn triangle_fill(&mut self, x0: i32, y0: i32, x1: i32, y1: i32, x2: i32, y2: i32)
        requires
            old(self).wf(),
            rows_fit(y0 as int, y1 as int, y2 as int),
        ensures
            final(self).wf(),
            final(self).same_settings(old(self)),
            final(self).pixels_view() == paint_region(
                paint_region(
                    old(self).pixels_view(),
                    old(self).width_view(),
                    old(self).fill_view(),
                    triangle_halves((x0 as int, y0 as int), (x1 as int, y1 as int), (x2 as int, y2 as int)).0,
                ),
                old(self).width_view(),
                old(self).fill_view(),
                triangle_halves((x0 as int, y0 as int), (x1 as int, y1 as int), (x2 as int, y2 as int)).1,
            ),
    {
        let color = match self.fill_color {
            Some(c) => c,
            None => {
                return;
            },
        };
        let (a, b, c) = sort_vertices((x0, y0), (x1, y1), (x2, y2));
        let x_project = split_point(a, b, c);
        let mut x_start: i32 = x_project;
        let mut base: i64 = b.0 as i64 - x_project as i64;
        if b.0 < x_project {
            x_start = b.0;
            base = -base;
        }
        self.triangle_flat_bottom(x_start, b.1, base, c.0, c.1, color);
        self.triangle_flat_top(x_start, b.1, base, a.0, a.1, color);
    }

    /// Draws the triangle `(x0, y0)`, `(x1, y1)`, `(x2, y2)`: filled if there
    /// is a fill colour, then outlined if there is a stroke colour.
    pub fn triangle(&mut self, x0: i32, y0: i32, x1: i32, y1: i32, x2: i32, y2: i32)
        requires
            old(self).wf(),
            rows_fit(y0 as int, y1 as int, y2 as int),
        ensures
            final(self).wf(),
            final(self).same_settings(old(self)),
            final(self).pixels_view() == stroke_segments(
                paint_region(
                    paint_region(
                        old(self).pixels_view(),
                        old(self).width_view(),
                        old(self).fill_view(),
                        triangle_halves((x0 as int, y0 as int), (x1 as int, y1 as int), (x2 as int, y2 as int)).0,
                    ),
                    old(self).width_view(),
                    old(self).fill_view(),
                    triangle_halves((x0 as int, y0 as int), (x1 as int, y1 as int), (x2 as int, y2 as int)).1,
                ),
                old(self).width_view(),
                old(self).stroke_view(),
                pen_mask(old(self).mode_view(), old(self).weight_view()),
                triangle_sides(x0 as int, y0 as int, x1 as int, y1 as int, x2 as int, y2 as int),
            ),
    {
        if self.fill_color.is_some() {
            self.triangle_fill(x0, y0, x1, y1, x2, y2);
        }
        if self.stroke_color.is_some() {
            self.triangle_stroke(x0, y0, x1, y1, x2, y2);
        }
        proof {
            reveal_with_fuel(stroke_segments, 4);
        }
    }

    /// The vertices of the shape under construction.
    pub fn shape_vertices(&self) -> (v: &Vec<(i32, i32)>)
        ensures
            v@ == self.vertices_view(),
    {
        &self.shape_vertices
    }

    /// The vertex indices at which the holes of the shape under
    /// construction start.
    pub fn shape_holes(&self) -> (h: &Vec<usize>)
        ensures
            h@ == self.holes_view(),
    {
        &self.shape_holes
    }

    /// The kind of the shape under construction.
    pub fn shape_type(&self) -> (t: ShapeType)
        ensures
            t == self.shape_view(),
    {
        self.shape_type
    }

    /// Starts a new shape of kind `shape_type`, with no vertices or holes.
    pub fn begin_shape(&mut self, shape_type: ShapeType)
        requires
            old(self).wf(),
        ensures
            final(self).wf(),
            final(self).shape_view() == shape_type,
            final(self).vertices_view().len() == 0,
            final(self).holes_view().len() == 0,
            final(self).pixels_view() == old(self).pixels_view(),
            final(self).width_view() == old(self).width_view(),
            final(self).height_view() == old(self).height_view(),
            final(self).fill_view() == old(self).fill_view(),
            final(self).stroke_view() == old(self).stroke_view(),
            final(self).weight_view() == old(self).weight_view(),
            final(self).mode_view() == old(self).mode_view(),
    {
        self.shape_type = shape_type;
        self.shape_vertices.clear();
        self.shape_holes.clear();
    }

    /// Adds the vertex `(x, y)` to the shape under construction.
    pub fn vertex(&mut self, x: i32, y: i32)
        requires
            old(self).wf(),
        ensures
            final(self).wf(),
            final(self).vertices_view() == old(self).vertices_view().push((x, y)),
            final(self).holes_view() == old(self).holes_view(),
            final(self).shape_view() == old(self).shape_view(),
            final(self).pixels_view() == old(self).pixels_view(),
            final(self).width_view() == old(self).width_view(),
            final(self).height_view() == old(self).height_view(),
            final(self).fill_view() == old(self).fill_view(),
            final(self).stroke_view() == old(self).stroke_view(),
            final(self).weight_view() == old(self).weight_view(),
            final(self).mode_view() == old(self).mode_view(),
    {
        self.shape_vertices.push((x, y));
    }

    /// Starts a hole: the vertices added from now on form a new ring.
    pub fn begin_hole(&mut self)
        requires
            old(self).wf(),
        ensures
            final(self).wf(),
            final(self).holes_view() == old(self).holes_view().push(
                old(self).vertices_view().len() as usize,
            ),
            final(self).vertices_view() == old(self).vertices_view(),
            final(self).shape_view() == old(self).shape_view(),
            final(self).pixels_view() == old(self).pixels_view(),
            final(self).width_view() == old(self).width_view(),
            final(self).height_view() == old(self).height_view(),
            final(self).fill_view() == old(self).fill_view(),
            final(self).stroke_view() == old(self).stroke_view(),
            final(self).weight_view() == old(self).weight_view(),
            final(self).mode_view() == old(self).mode_view(),
    {
        let n = self.shape_vertices.len();
        self.shape_holes.push(n);
    }

    /// Draws straight segments through the vertices of the shape under
    /// construction; each hole starts a new chain, and each chain is closed
    /// when `loops`.
    fn linear_spline(&mut self, loops: bool)
        requires
            old(self).wf(),
            holes_valid(old(self).holes_view()),
        ensures
            final(self).wf(),
            final(self).same_settings(old(self)),
            final(self).pixels_view() == stroke_segments(
                old(self).pixels_view(),
                old(self).width_view(),
                old(self).stroke_view(),
                pen_mask(old(self).mode_view(), old(self).weight_view()),
                spline_from(old(self).vertices_view(), old(self).holes_view(), loops, 0, 0, 0),
            ),
    {
        let ghost px0 = self.pixels@;
        let ghost v = self.shape_vertices@;
        let ghost holes = self.shape_holes@;
        let ghost m = pen_mask(self.stroke_mode, self.stroke_weight);
        let ghost full = spline_from(v, holes, loops, 0, 0, 0);
        let ghost mut done: Seq<(int, int, int, int)> = Seq::empty();
        let n = self.shape_vertices.len();
        let mut start: usize = 0;
        let mut hole: usize = 0;
        let mut i: usize = 0;
        assert(done + full =~= full);
        while i < n
            invariant
                self.wf(),
                self.same_settings(old(self)),
                v == self.vertices_view(),
                holes == self.holes_view(),
                n == v.len(),
                holes_valid(holes),
                i <= n,
                start <= i,
                hole <= holes.len(),
                m == pen_mask(self.mode_view(), self.weight_view()),
                full == spline_from(v, holes, loops, 0, 0, 0),
                full == done + spline_from(v, holes, loops, i as int, start as int, hole as int),
                self.pixels_view() == stroke_segments(px0, self.width_view(), self.stroke_view(), m, done),
            decreases n - i,
        {
            let end = i == n - 1 || (hole < self.shape_holes.len() && i == self.shape_holes[hole] - 1);
            if !loops && end {
                i += 1;
                continue;
            }
            let (x0, y0) = self.shape_vertices[i];
            let to = if end { start } else { i + 1 };
            let (x1, y1) = self.shape_vertices[to];
            let ghost seg = (x0 as int, y0 as int, x1 as int, y1 as int);
            self.line(x0, y0, x1, y1);
            proof {
                assert(done.push(seg).drop_last() =~= done);
                done = done.push(seg);
            }
            if hole < self.shape_holes.len() && i == self.shape_holes[hole] {
                hole += 1;
                start = i;
            }
            i += 1;
            proof {
                assert(full =~= done + spline_from(v, holes, loops, i as int, start as int, hole as int));
            }
        }
        proof {
            assert(spline_from(v, holes, loops, i as int, start as int, hole as int) =~= Seq::<
                (int, int, int, int),
            >::empty());
            assert(done =~= full);
        }
    }

    /// Fills each triangle of `triangles`, given as three vertex indices of
    /// the shape under construction per triangle, in turn.
    fn polygon_fill(&mut self, triangles: &Vec<usize>)
        requires
            old(self).wf(),
            forall|k: int| 0 <= k < triangles@.len() ==> (#[trigger] triangles@[k] as int) < old(
                self,
            ).vertices_view().len(),
            vertex_rows_fit(old(self).vertices_view()),
        ensures
            final(self).wf(),
            final(self).same_settings(old(self)),
            final(self).pixels_view() == fill_triangles(
                old(self).pixels_view(),
                old(self).width_view(),
                old(self).fill_view(),
                old(self).vertices_view(),
                triangles@,
                (triangles@.len() / 3) as int,
            ),
    {
        let ghost px0 = self.pixels@;
        let tl = triangles.len();
        let count = tl / 3;
        let mut i: usize = 0;
        while i < count
            invariant
                tl == triangles@.len(),
                self.wf(),
                self.same_settings(old(self)),
                count == (triangles@.len() / 3) as int,
                i <= count,
                forall|k: int| 0 <= k < triangles@.len() ==> (#[trigger] triangles@[k] as int)
                    < self.vertices_view().len(),
                vertex_rows_fit(self.vertices_view()),
                self.pixels_view() == fill_triangles(
                    px0,
                    self.width_view(),
                    self.fill_view(),
                    self.vertices_view(),
                    triangles@,
                    i as int,
                ),
            decreases count - i,
        {
            proof {
                let len = triangles@.len() as int;
                lemma_fundamental_div_mod(len, 3);
                assert(3 * i + 2 < len) by (nonlinear_arith)
                    requires i < len / 3, len == 3 * (len / 3) + len % 3, 0 <= len % 3;
            }
            let (a, b, c) = (triangles[3 * i], triangles[3 * i + 1], triangles[3 * i + 2]);
            let (pa, pb, pc) = (self.shape_vertices[a], self.shape_vertices[b], self.shape_vertices[c]);
            proof {
                let v = self.vertices_view();
                assert(v[a as int].1 - v[b as int].1 < usize::MAX);
                assert(v[b as int].1 - v[a as int].1 < usize::MAX);
                assert(v[a as int].1 - v[c as int].1 < usize::MAX);
                assert(v[c as int].1 - v[a as int].1 < usize::MAX);
                assert(v[b as int].1 - v[c as int].1 < usize::MAX);
                assert(v[c as int].1 - v[b as int].1 < usize::MAX);
            }
            self.triangle_fill(pa.0, pa.1, pb.0, pb.1, pc.0, pc.1);
            i += 1;
        }
    }

    /// Draws the polygon under construction: its triangles (`triangles`,
    /// three vertex indices each) filled if there is a fill colour, then
    /// each ring outlined if there is a stroke colour.
    pub fn polygon(&mut self, triangles: &Vec<usize>)
        requires
            old(self).wf(),
            forall|k: int| 0 <= k < triangles@.len() ==> (#[trigger] triangles@[k] as int) < old(
                self,
            ).vertices_view().len(),
            vertex_rows_fit(old(self).vertices_view()),
            holes_valid(old(self).holes_view()),
        ensures
            final(self).wf(),
            final(self).same_settings(old(self)),
            final(self).pixels_view() == stroke_segments(
                fill_triangles(
                    old(self).pixels_view(),
                    old(self).width_view(),
                    old(self).fill_view(),
                    old(self).vertices_view(),
                    triangles@,
                    (triangles@.len() / 3) as int,
                ),
                old(self).width_view(),
                old(self).stroke_view(),
                pen_mask(old(self).mode_view(), old(self).weight_view()),
                spline_from(old(self).vertices_view(), old(self).holes_view(), true, 0, 0, 0),
            ),
    {
        if self.fill_color.is_some() {
            self.polygon_fill(triangles);
        } else {
            proof {
                lemma_fill_triangles_none(
                    self.pixels@, self.width as int, self.shape_vertices@, triangles@,
                    (triangles@.len() / 3) as int);
            }
        }
        if self.stroke_color.is_some() {
            self.linear_spline(true);
        } else {
            proof {
                lemma_stroke_segments_none(
                    self.pixels@, self.width as int, pen_mask(self.stroke_mode, self.stroke_weight),
                    spline_from(self.shape_vertices@, self.shape_holes@, true, 0, 0, 0));
            }
        }
    }

    /// Draws the shape under construction according to its kind. A polygon
    /// is filled with `triangles` (three vertex indices each, as an
    /// ear-clipping triangulation of its rings gives them) and outlined;
    /// a linear spline is stroked. Cubic splines are not drawn.
    pub fn end_shape(&mut self, triangles: &Vec<usize>)
        requires
            old(self).wf(),
            !(old(self).shape_view() is CubicBezierSpline),
            forall|k: int| 0 <= k < triangles@.len() ==> (#[trigger] triangles@[k] as int) < old(
                self,
            ).vertices_view().len(),
            vertex_rows_fit(old(self).vertices_view()),
            holes_valid(old(self).holes_view()),
        ensures
            final(self).wf(),
            final(self).same_settings(old(self)),
            final(self).pixels_view() == match old(self).shape_view() {
                ShapeType::Polygon => stroke_segments(
                    fill_triangles(
                        old(self).pixels_view(),
                        old(self).width_view(),
                        old(self).fill_view(),
                        old(self).vertices_view(),
                        triangles@,
                        (triangles@.len() / 3) as int,
                    ),
                    old(self).width_view(),
                    old(self).stroke_view(),
                    pen_mask(old(self).mode_view(), old(self).weight_view()),
                    spline_from(old(self).vertices_view(), old(self).holes_view(), true, 0, 0, 0),
                ),
                ShapeType::LinearSpline { loops } => stroke_segments(
                    old(self).pixels_view(),
                    old(self).width_view(),
                    old(self).stroke_view(),
                    pen_mask(old(self).mode_view(), old(self).weight_view()),
                    spline_from(old(self).vertices_view(), old(self).holes_view(), loops, 0, 0, 0),
                ),
                ShapeType::CubicBezierSpline { .. } => old(self).pixels_view(),
            },
    {
        match self.shape_type {
            ShapeType::Polygon => self.polygon(triangles),
            ShapeType::LinearSpline { loops } => self.linear_spline(loops),
            ShapeType::CubicBezierSpline { .. } => {},
        }
    }

    /// The red, green and blue bytes of every pixel, row by row (alpha is
    /// dropped), as an image encoder takes them.
    pub fn to_rgb_bytes(&self) -> (bytes: Vec<u8>)
        requires
            self.wf(),
            3 * self.pixels_view().len() <= usize::MAX,
        ensures
            bytes@.len() == 3 * self.pixels_view().len(),
            forall|k: int| 0 <= k < self.pixels_view().len() ==> {
                &&& bytes@[3 * k] == red_of(#[trigger] self.pixels_view()[k])
                &&& bytes@[3 * k + 1] == green_of(self.pixels_view()[k])
                &&& bytes@[3 * k + 2] == blue_of(self.pixels_view()[k])
            },
    {
        let mut bytes: Vec<u8> = Vec::new();
        let mut k: usize = 0;
        while k < self.pixels.len()
            invariant
                k <= self.pixels@.len(),
                bytes@.len() == 3 * k,
                forall|j: int| 0 <= j < k ==> {
                    &&& bytes@[3 * j] == red_of(#[trigger] self.pixels@[j])
                    &&& bytes@[3 * j + 1] == green_of(self.pixels@[j])
                    &&& bytes@[3 * j + 2] == blue_of(self.pixels@[j])
                },
            decreases self.pixels@.len() - k,
        {
            let p = self.pixels[k];
            bytes.push(RgbaColor::color_red(p));
            bytes.push(RgbaColor::color_green(p));
            bytes.push(RgbaColor::color_blue(p));
            k += 1;
        }
        bytes
    }

    /// Composites the `cw` by `ch` grid `colors` (row by row) over the
    /// surface with its first cell at `(ox, oy)`.
    fn blit(&mut self, ox: i64, oy: i64, cw: usize, ch: usize, colors: &Vec<u32>)
        requires
            old(self).wf(),
            colors@.len() == cw * ch,
            -0x100_0000_0000 <= ox <= 0x100_0000_0000,
            -0x100_0000_0000 <= oy <= 0x100_0000_0000,
            cw <= u32::MAX,
            ch <= u32::MAX,
        ensures
            final(self).wf(),
            final(self).same_settings(old(self)),
            final(self).pixels_view() == paint_cells(
                old(self).pixels_view(),
                old(self).width_view(),
                grid_cover(ox as int, oy as int, cw as int, ch as int),
                grid_color(colors@, ox as int, oy as int, cw as int),
            ),
    {
        let ghost px0 = self.pixels@;
        let ghost sw = self.width as int;
        let ghost sh = self.height as int;
        let ghost cover = grid_cover(ox as int, oy as int, cw as int, ch as int);
        let ghost col = grid_color(colors@, ox as int, oy as int, cw as int);
        if self.width == 0 || self.height == 0 {
            proof {
                assert(sw * sh == 0) by (nonlinear_arith) requires sw == 0 || sh == 0;
                assert(paint_cells(px0, sw, cover, col) =~= px0);
            }
            return;
        }
        let cl = colors.len();
        let mut i: usize = 0;
        proof {
            assert(paint_cells(px0, sw, |a: int, b: int| cover(a, b) && a - ox < 0, col) =~= px0);
        }
        while i < cw
            invariant
                self.wf(),
                self.same_settings(old(self)),
                sw == self.width_view(), sh == self.height_view(), sw > 0, sh > 0,
                px0.len() == sw * sh,
                colors@.len() == cw * ch,
                cl == colors@.len(),
                -0x100_0000_0000 <= ox <= 0x100_0000_0000, -0x100_0000_0000 <= oy <= 0x100_0000_0000,
                cw <= u32::MAX, ch <= u32::MAX,
                i <= cw,
                cover == grid_cover(ox as int, oy as int, cw as int, ch as int),
                col == grid_color(colors@, ox as int, oy as int, cw as int),
                self.pixels_view() == paint_cells(px0, sw, |a: int, b: int| cover(a, b) && a - ox < i, col),
            decreases cw - i,
        {
            let mut j: usize = 0;
            proof {
                let p = |a: int, b: int| cover(a, b) && a - ox < i;
                let q = |a: int, b: int| cover(a, b) && (a - ox < i || (a - ox == i && b - oy < 0));
                assert forall|a: int, b: int| 0 <= a < sw && 0 <= b < sh implies #[trigger] p(a, b) == q(a, b) by {}
                lemma_paint_cells_ext(px0, sw, sh, p, q, col);
            }
            while j < ch
                invariant
                    self.wf(),
                    self.same_settings(old(self)),
                    sw == self.width_view(), sh == self.height_view(), sw > 0, sh > 0,
                    px0.len() == sw * sh,
                    colors@.len() == cw * ch,
                    cl == colors@.len(),
                    -0x100_0000_0000 <= ox <= 0x100_0000_0000, -0x100_0000_0000 <= oy <= 0x100_0000_0000,
                    cw <= u32::MAX, ch <= u32::MAX,
                    i < cw,
                    j <= ch,
                    cover == grid_cover(ox as int, oy as int, cw as int, ch as int),
                    col == grid_color(colors@, ox as int, oy as int, cw as int),
                    self.pixels_view() == paint_cells(px0, sw,
                        |a: int, b: int| cover(a, b) && (a - ox < i || (a - ox == i && b - oy < j)), col),
                decreases ch - j,
            {
                let px = ox + i as i64;
                let py = oy + j as i64;
                let ghost p = |a: int, b: int| cover(a, b) && (a - ox < i || (a - ox == i && b - oy < j));
                let ghost r = |a: int, b: int| cover(a, b) && (a - ox < i || (a - ox == i && b - oy < j + 1));
                if 0 <= px && px < self.width as i64 && 0 <= py && py < self.height as i64 {
                    assert(0 <= j * cw <= j * cw + i < cw * ch) by (nonlinear_arith)
                        requires i < cw, j < ch;
                    let color = colors[j * cw + i];
                    proof {
                        assert(col(px as int, py as int) == color);
                    }
                    self.change_pixel(px as i32, py as i32, color);
                    proof {
                        assert forall|a: int, b: int| 0 <= a < sw && 0 <= b < sh implies #[trigger] r(a, b)
                            == (p(a, b) || (a == px && b == py)) by {}
                        lemma_paint_cells_step(px0, sw, sh, p, r, col, px as int, py as int);
                    }
                } else {
                    proof {
                        assert forall|a: int, b: int| 0 <= a < sw && 0 <= b < sh implies #[trigger] p(a, b)
                            == r(a, b) by {}
                        lemma_paint_cells_ext(px0, sw, sh, p, r, col);
                    }
                }
                j += 1;
            }
            proof {
                let p = |a: int, b: int| cover(a, b) && (a - ox < i || (a - ox == i && b - oy < j));
                let q = |a: int, b: int| cover(a, b) && a - ox < i + 1;
                assert forall|a: int, b: int| 0 <= a < sw && 0 <= b < sh implies #[trigger] p(a, b) == q(a, b) by {}
                lemma_paint_cells_ext(px0, sw, sh, p, q, col);
            }
            i += 1;
        }
        proof {
            let p = |a: int, b: int| cover(a, b) && a - ox < i;
            assert forall|a: int, b: int| 0 <= a < sw && 0 <= b < sh implies #[trigger] p(a, b) == cover(a, b) by {}
            lemma_paint_cells_ext(px0, sw, sh, p, cover, col);
        }
    }

    /// Draws `image` opaque with its top-left pixel at `(x, y)`.
    pub fn image(&mut self, image: &RgbImage, x: i32, y: i32)
        requires
            old(self).wf(),
            image.wf(),
        ensures
            final(self).wf(),
            final(self).same_settings(old(self)),
            final(self).pixels_view() == paint_cells(
                old(self).pixels_view(),
                old(self).width_view(),
                grid_cover(x as int, y as int, image.width as int, image.height as int),
                grid_color(
                    image_colors(image.data@, image.width * image.height),
                    x as int,
                    y as int,
                    image.width as int,
                ),
            ),
    {
        let dl = image.data.len();
        assert(3 * image.width * image.height == 3 * (image.width as int * image.height as int))
            by (nonlinear_arith);
        assert(0 <= image.width as int * image.height as int <= dl) by (nonlinear_arith)
            requires dl == 3 * (image.width as int * image.height as int);
        let n = image.width as usize * image.height as usize;
        let ghost target = image_colors(image.data@, n as int);
        let mut colors: Vec<u32> = Vec::new();
        let mut k: usize = 0;
        while k < n
            invariant
                n == image.width * image.height,
                dl == image.data@.len(),
                dl == 3 * n,
                image.wf(),
                k <= n,
                target == image_colors(image.data@, n as int),
                colors@ == target.subrange(0, k as int),
            decreases n - k,
        {
            assert(3 * k + 2 < dl) by (nonlinear_arith)
                requires k < n, dl == 3 * n;
            let c = RgbaColor::argb_color(255, image.data[3 * k], image.data[3 * k + 1], image.data[3 * k + 2]);
            colors.push(c);
            k += 1;
            assert(colors@ =~= target.subrange(0, k as int));
        }
        assert(colors@ =~= target);
        self.blit(x as i64, y as i64, image.width as usize, image.height as usize, &colors);
    }

    /// Draws one glyph: its `width` by `height` coverage map (one byte per
    /// cell, row by row) is composited in the fill colour, each cell's
    /// coverage as alpha, with the bottom-left of the glyph box `xmin`, `ymin`
    /// away from the pen position `(x_start, y_start)`.
    pub fn render_char(
        &mut self,
        width: usize,
        height: usize,
        xmin: i32,
        ymin: i32,
        coverage: &Vec<u8>,
        x_start: i32,
        y_start: i32,
    )
        requires
            old(self).wf(),
            old(self).fill_view() is Some,
            coverage@.len() == width * height,
            width <= u32::MAX,
            height <= u32::MAX,
        ensures
            final(self).wf(),
            final(self).same_settings(old(self)),
            final(self).pixels_view() == paint_cells(
                old(self).pixels_view(),
                old(self).width_view(),
                grid_cover(x_start + xmin, y_start - height - ymin, width as int, height as int),
                grid_color(
                    glyph_colors(coverage@, old(self).fill_view().unwrap(), width * height),
                    x_start + xmin,
                    y_start - height - ymin,
                    width as int,
                ),
            ),
    {
        let fill = match self.fill_color {
            Some(c) => c,
            None => {
                return;
            },
        };
        let (r, g, b) = (RgbaColor::color_red(fill), RgbaColor::color_green(fill), RgbaColor::color_blue(fill));
        let n = coverage.len();
        let ghost target = glyph_colors(coverage@, fill, n as int);
        let mut colors: Vec<u32> = Vec::new();
        let mut k: usize = 0;
        while k < n
            invariant
                n == coverage@.len(),
                k <= n,
                r == red_of(fill), g == green_of(fill), b == blue_of(fill),
                target == glyph_colors(coverage@, fill, n as int),
                colors@ == target.subrange(0, k as int),
            decreases n - k,
        {
            let c = RgbaColor::argb_color(coverage[k], r, g, b);
            colors.push(c);
            k += 1;
            assert(colors@ =~= target.subrange(0, k as int));
        }
        assert(colors@ =~= target);
        let ox = x_start as i64 + xmin as i64;
        let oy = y_start as i64 - height as i64 - ymin as i64;
        self.blit(ox, oy, width, height, &colors);
    }
}

} // verus!
