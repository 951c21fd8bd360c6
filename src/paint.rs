//! What drawing does to a row-major pixel buffer, as spec functions over
//! its contents, with the lemmas that combine them and the scan helpers
//! that the drawing code shares.
use vstd::prelude::*;
use vstd::arithmetic::div_mod::lemma_fundamental_div_mod;
use vstd::arithmetic::div_mod::lemma_fundamental_div_mod_converse;
use crate::color::over;
use crate::color::red_of;
use crate::color::green_of;
use crate::color::blue_of;
use crate::color::pack;
use crate::line::line_points;
use crate::line::pair_view;

verus! {

/// `px` with colour `c` composited over every pixel `(x, y)` of a buffer
/// `w` pixels wide for which `covers(x, y)` holds.
pub open spec fn fill_region(px: Seq<u32>, w: int, c: u32, covers: spec_fn(int, int) -> bool) -> Seq<u32> {
    Seq::new(px.len(), |k: int| if covers(k % w, k / w) { over(px[k], c) as u32 } else { px[k] })
}

/// `fill_region` with an optional colour: no colour leaves `px` as it is.
pub open spec fn paint_region(
    px: Seq<u32>,
    w: int,
    c: Option<u32>,
    covers: spec_fn(int, int) -> bool,
) -> Seq<u32> {
    match c {
        Some(c) => fill_region(px, w, c, covers),
        None => px,
    }
}

/// The covering of the single pixel `(x, y)`.
pub open spec fn at(x: int, y: int) -> spec_fn(int, int) -> bool {
    |a: int, b: int| a == x && b == y
}

/// `px` with colour `c` composited once at each point of `pts`, in order;
/// a point met twice is composited twice.
pub open spec fn paint_points(px: Seq<u32>, w: int, c: u32, pts: Seq<(int, int)>) -> Seq<u32>
    decreases pts.len(),
{
    if pts.len() == 0 {
        px
    } else {
        fill_region(
            paint_points(px, w, c, pts.drop_last()),
            w,
            c,
            at(pts.last().0, pts.last().1),
        )
    }
}

/// The footprint `m` placed at `p`.
pub open spec fn mask_at(p: (int, int), m: Seq<(int, int)>) -> Seq<(int, int)> {
    Seq::new(m.len(), |j: int| (p.0 + m[j].0, p.1 + m[j].1))
}

/// The footprint `m` placed at each point of `trace` in turn.
pub open spec fn stroke_points(trace: Seq<(int, int)>, m: Seq<(int, int)>) -> Seq<(int, int)> {
    Seq::new(trace.len(), |k: int| mask_at(trace[k], m)).flatten()
}

/// `paint_points` with an optional colour: no colour leaves `px` as it is.
pub open spec fn paint_stroke(px: Seq<u32>, w: int, c: Option<u32>, pts: Seq<(int, int)>) -> Seq<u32> {
    match c {
        Some(c) => paint_points(px, w, c, pts),
        None => px,
    }
}

/// The segments `segs` (each `(x0, y0, x1, y1)`) stroked one after the
/// other with footprint `m`.
pub open spec fn stroke_segments(
    px: Seq<u32>,
    w: int,
    c: Option<u32>,
    m: Seq<(int, int)>,
    segs: Seq<(int, int, int, int)>,
) -> Seq<u32>
    decreases segs.len(),
{
    if segs.len() == 0 {
        px
    } else {
        let s = segs.last();
        paint_stroke(
            stroke_segments(px, w, c, m, segs.drop_last()),
            w,
            c,
            stroke_points(line_points(s.0, s.1, s.2, s.3), m),
        )
    }
}

/// The four sides of the `w` by `h` rectangle at `(x, y)`, in drawing order.
pub open spec fn rect_sides(x: int, y: int, w: int, h: int) -> Seq<(int, int, int, int)> {
    seq![(x, y, x + w, y), (x, y, x, y + h), (x, y + h, x + w, y + h), (x + w, y, x + w, y + h)]
}

/// The three sides of a triangle, in drawing order.
pub open spec fn triangle_sides(x0: int, y0: int, x1: int, y1: int, x2: int, y2: int) -> Seq<(int, int, int, int)> {
    seq![(x0, y0, x1, y1), (x0, y0, x2, y2), (x2, y2, x1, y1)]
}

/// The pixels of the disk of radius `r` about `(xc, yc)`.
pub open spec fn in_circle(a: int, b: int, xc: int, yc: int, r: int) -> bool {
    &&& -r <= a - xc <= r
    &&& -r <= b - yc <= r
    &&& (a - xc) * (a - xc) + (b - yc) * (b - yc) <= r * r
}

/// The least x among the points of `pts` on row `y`; `i32::MAX` if none.
pub open spec fn row_min(pts: Seq<(int, int)>, y: int) -> int
    decreases pts.len(),
{
    if pts.len() == 0 {
        i32::MAX as int
    } else {
        let rest = row_min(pts.drop_last(), y);
        if pts.last().1 == y && pts.last().0 < rest { pts.last().0 } else { rest }
    }
}

/// The greatest x among the points of `pts` on row `y`; `i32::MIN` if none.
pub open spec fn row_max(pts: Seq<(int, int)>, y: int) -> int
    decreases pts.len(),
{
    if pts.len() == 0 {
        i32::MIN as int
    } else {
        let rest = row_max(pts.drop_last(), y);
        if pts.last().1 == y && pts.last().0 > rest { pts.last().0 } else { rest }
    }
}

/// The pixels of rows `ylo` to `yhi` lying between the leftmost point of
/// `left` and the rightmost point of `right` on the same row.
pub open spec fn between_edges(left: Seq<(int, int)>, right: Seq<(int, int)>, ylo: int, yhi: int) -> spec_fn(int, int) -> bool {
    |a: int, b: int| ylo <= b <= yhi && row_min(left, b) <= a <= row_max(right, b)
}

/// The flat-based triangle with base from `(x0, y0)` to `(x0 + base, y0)`
/// and apex `(x1, y1)` on the side of greater y (`y1 >= y0`), filled row by row
/// between its two edges traced from the base.
pub open spec fn flat_top(x0: int, y0: int, base: int, x1: int, y1: int) -> spec_fn(int, int) -> bool {
    between_edges(line_points(x0, y0, x1, y1), line_points(x0 + base, y0, x1, y1), y0, y1)
}

/// The flat-based triangle with base from `(x0, y0)` to `(x0 + base, y0)`
/// and apex `(x1, y1)` on the side of smaller y (`y1 <= y0`), filled row by row
/// between its two edges traced from the apex.
pub open spec fn flat_bottom(x0: int, y0: int, base: int, x1: int, y1: int) -> spec_fn(int, int) -> bool {
    between_edges(line_points(x1, y1, x0, y0), line_points(x1, y1, x0 + base, y0), y1, y0)
}

/// The three vertices ordered by decreasing y; vertices on the same row
/// keep their order.
pub open spec fn sort_by_y(p0: (int, int), p1: (int, int), p2: (int, int)) -> ((int, int), (int, int), (int, int)) {
    let (a, b) = if p1.1 > p0.1 { (p1, p0) } else { (p0, p1) };
    if p2.1 > b.1 {
        if p2.1 > a.1 { (p2, a, b) } else { (a, p2, b) }
    } else {
        (a, b, p2)
    }
}

/// `n / d` rounded to the nearest integer, halves away from zero; `d > 0`.
pub open spec fn round_div(n: int, d: int) -> int {
    if n >= 0 { (2 * n + d) / (2 * d) } else { -((2 * (-n) + d) / (2 * d)) }
}

/// Where the row of the middle vertex `t1` meets the edge from `t0` to
/// `t2`, rounded to the nearest column; `t2`'s column when all three lie
/// on one row.
pub open spec fn split_x(t0: (int, int), t1: (int, int), t2: (int, int)) -> int {
    let d = t0.1 - t2.1;
    if d == 0 {
        t2.0
    } else {
        round_div(t2.0 * d + (t1.1 - t2.1) * (t0.0 - t2.0), d)
    }
}

/// The left end of the shared base of the two flat halves.
pub open spec fn split_start(t0: (int, int), t1: (int, int), t2: (int, int)) -> int {
    let xp = split_x(t0, t1, t2);
    if t1.0 < xp { t1.0 } else { xp }
}

/// The length of the shared base of the two flat halves.
pub open spec fn split_base(t0: (int, int), t1: (int, int), t2: (int, int)) -> int {
    let xp = split_x(t0, t1, t2);
    if t1.0 < xp { xp - t1.0 } else { t1.0 - xp }
}

/// The pixels that filling a triangle paints, as its two flat halves: the
/// half below the middle vertex first, then the half above. Pixels on the
/// middle vertex's row belong to both.
pub open spec fn triangle_halves(p0: (int, int), p1: (int, int), p2: (int, int)) -> (
    spec_fn(int, int) -> bool,
    spec_fn(int, int) -> bool,
) {
    let (t0, t1, t2) = sort_by_y(p0, p1, p2);
    let xs = split_start(t0, t1, t2);
    let base = split_base(t0, t1, t2);
    (flat_bottom(xs, t1.1, base, t2.0, t2.1), flat_top(xs, t1.1, base, t0.0, t0.1))
}

/// The rows spanned by three points can be counted in a `usize`.
pub open spec fn rows_fit(y0: int, y1: int, y2: int) -> bool {
    &&& y0 - y1 < usize::MAX && y1 - y0 < usize::MAX
    &&& y0 - y2 < usize::MAX && y2 - y0 < usize::MAX
    &&& y1 - y2 < usize::MAX && y2 - y1 < usize::MAX
}

/// Whether vertex `i` closes its chain: it is the last vertex, or the next
/// one opens hole `hole`.
pub open spec fn chain_end(v: Seq<(i32, i32)>, holes: Seq<usize>, i: int, hole: int) -> bool {
    i == v.len() - 1 || (hole < holes.len() && i == holes[hole] - 1)
}

/// The segments that a linear spline draws from vertex `i` on, the current
/// chain having started at `start` and `hole` holes having been opened:
/// each vertex is joined to the next, and the last vertex of a chain back
/// to the chain's first when `loops` (and to nothing otherwise).
pub open spec fn spline_from(
    v: Seq<(i32, i32)>,
    holes: Seq<usize>,
    loops: bool,
    i: int,
    start: int,
    hole: int,
) -> Seq<(int, int, int, int)>
    decreases v.len() - i,
{
    if i >= v.len() || i < 0 {
        Seq::empty()
    } else {
        let end = chain_end(v, holes, i, hole);
        if !loops && end {
            spline_from(v, holes, loops, i + 1, start, hole)
        } else {
            let to = if end { start } else { i + 1 };
            let opens = hole < holes.len() && i == holes[hole];
            seq![(v[i].0 as int, v[i].1 as int, v[to].0 as int, v[to].1 as int)] + spline_from(
                v,
                holes,
                loops,
                i + 1,
                if opens { i } else { start },
                if opens { hole + 1 } else { hole },
            )
        }
    }
}

/// Every hole starts after at least one vertex of the outer ring.
pub open spec fn holes_valid(holes: Seq<usize>) -> bool {
    forall|k: int| 0 <= k < holes.len() ==> 1 <= #[trigger] holes[k]
}

/// Any two vertices' rows can be counted in a `usize`.
pub open spec fn vertex_rows_fit(v: Seq<(i32, i32)>) -> bool {
    forall|i: int, j: int| 0 <= i < v.len() && 0 <= j < v.len() ==> #[trigger] v[i].1 - #[trigger] v[j].1 < usize::MAX
}

/// The triangle filled with the two halves of `triangle_halves`.
pub open spec fn fill_triangle_region(
    px: Seq<u32>,
    w: int,
    c: Option<u32>,
    p0: (i32, i32),
    p1: (i32, i32),
    p2: (i32, i32),
) -> Seq<u32> {
    let halves = triangle_halves(
        (p0.0 as int, p0.1 as int),
        (p1.0 as int, p1.1 as int),
        (p2.0 as int, p2.1 as int),
    );
    paint_region(paint_region(px, w, c, halves.0), w, c, halves.1)
}

/// The first `k` triangles of `t` (three vertex indices each) filled in
/// turn.
pub open spec fn fill_triangles(
    px: Seq<u32>,
    w: int,
    c: Option<u32>,
    v: Seq<(i32, i32)>,
    t: Seq<usize>,
    k: int,
) -> Seq<u32>
    decreases k,
{
    if k <= 0 {
        px
    } else {
        fill_triangle_region(
            fill_triangles(px, w, c, v, t, k - 1),
            w,
            c,
            v[t[3 * (k - 1)] as int],
            v[t[3 * (k - 1) + 1] as int],
            v[t[3 * (k - 1) + 2] as int],
        )
    }
}

pub(crate) proof fn lemma_fill_triangles_none(px: Seq<u32>, w: int, v: Seq<(i32, i32)>, t: Seq<usize>, k: int)
    ensures
        fill_triangles(px, w, None, v, t, k) == px,
    decreases k,
{
    if k > 0 {
        lemma_fill_triangles_none(px, w, v, t, k - 1);
    }
}

pub(crate) proof fn lemma_stroke_segments_none(px: Seq<u32>, w: int, m: Seq<(int, int)>, segs: Seq<(int, int, int, int)>)
    ensures
        stroke_segments(px, w, None, m, segs) == px,
    decreases segs.len(),
{
    if segs.len() > 0 {
        lemma_stroke_segments_none(px, w, m, segs.drop_last());
    }
}

pub(crate) proof fn lemma_round_div_between(n: int, d: int, lo: int, hi: int)
    requires
        d > 0,
        lo <= hi,
        lo * d <= n <= hi * d,
    ensures
        lo <= round_div(n, d) <= hi,
{
    let dd = 2 * d;
    if n >= 0 {
        let t = 2 * n + d;
        let q = t / dd;
        lemma_fundamental_div_mod(t, dd);
        assert(q * dd <= t < q * dd + dd) by (nonlinear_arith)
            requires t == dd * q + t % dd, 0 <= t % dd < dd;
        assert(q <= hi) by (nonlinear_arith)
            requires q * dd <= t, t == 2 * n + d, n <= hi * d, dd == 2 * d, d > 0;
        assert(lo <= q) by (nonlinear_arith)
            requires t < q * dd + dd, t == 2 * n + d, lo * d <= n, dd == 2 * d, d > 0, n >= 0;
    } else {
        let m = -n;
        let t = 2 * m + d;
        let q = t / dd;
        lemma_fundamental_div_mod(t, dd);
        assert(q * dd <= t < q * dd + dd) by (nonlinear_arith)
            requires t == dd * q + t % dd, 0 <= t % dd < dd;
        assert(q <= -lo) by (nonlinear_arith)
            requires q * dd <= t, t == 2 * m + d, m == -n, lo * d <= n, dd == 2 * d, d > 0;
        assert(-hi <= q) by (nonlinear_arith)
            requires t < q * dd + dd, t == 2 * m + d, m == -n, n <= hi * d, dd == 2 * d, d > 0, m > 0;
    }
}

pub(crate) proof fn lemma_split_x_between(t0: (int, int), t1: (int, int), t2: (int, int))
    requires
        t2.1 <= t1.1 <= t0.1,
    ensures
        t0.0 <= t2.0 ==> t0.0 <= split_x(t0, t1, t2) <= t2.0,
        t2.0 < t0.0 ==> t2.0 <= split_x(t0, t1, t2) <= t0.0,
{
    let d = t0.1 - t2.1;
    if d != 0 {
        let k = t1.1 - t2.1;
        let n = t2.0 * d + k * (t0.0 - t2.0);
        if t0.0 <= t2.0 {
            assert(t0.0 * d <= n <= t2.0 * d) by (nonlinear_arith)
                requires n == t2.0 * d + k * (t0.0 - t2.0), 0 <= k <= d, t0.0 <= t2.0;
            lemma_round_div_between(n, d, t0.0, t2.0);
        } else {
            assert(t2.0 * d <= n <= t0.0 * d) by (nonlinear_arith)
                requires n == t2.0 * d + k * (t0.0 - t2.0), 0 <= k <= d, t2.0 < t0.0;
            lemma_round_div_between(n, d, t2.0, t0.0);
        }
    }
}

/// The three vertices ordered by decreasing y, stably.
pub(crate) fn sort_vertices(p0: (i32, i32), p1: (i32, i32), p2: (i32, i32)) -> (r: ((i32, i32), (i32, i32), (i32, i32)))
    ensures
        sort_by_y((p0.0 as int, p0.1 as int), (p1.0 as int, p1.1 as int), (p2.0 as int, p2.1 as int))
            == ((r.0.0 as int, r.0.1 as int), (r.1.0 as int, r.1.1 as int), (r.2.0 as int, r.2.1 as int)),
{
    let (mut a, mut b) = if p1.1 > p0.1 { (p1, p0) } else { (p0, p1) };
    let mut c = p2;
    if c.1 > b.1 {
        let t = b;
        b = c;
        c = t;
        if b.1 > a.1 {
            let t = a;
            a = b;
            b = t;
        }
    }
    (a, b, c)
}

/// `split_x` of three vertices ordered by decreasing y.
pub(crate) fn split_point(a: (i32, i32), b: (i32, i32), c: (i32, i32)) -> (x: i32)
    requires
        c.1 <= b.1 <= a.1,
    ensures
        x == split_x((a.0 as int, a.1 as int), (b.0 as int, b.1 as int), (c.0 as int, c.1 as int)),
{
    proof {
        lemma_split_x_between((a.0 as int, a.1 as int), (b.0 as int, b.1 as int), (c.0 as int, c.1 as int));
    }
    let d: i64 = a.1 as i64 - c.1 as i64;
    if d == 0 {
        return c.0;
    }
    assert(-0x1_0000_0000_0000_0000 <= (c.0 as int) * (d as int) <= 0x1_0000_0000_0000_0000)
        by (nonlinear_arith)
        requires -0x8000_0000 <= c.0 < 0x8000_0000, 0 <= d < 0x1_0000_0000;
    assert(-0x1_0000_0000_0000_0000 <= (b.1 - c.1) * (a.0 - c.0) <= 0x1_0000_0000_0000_0000)
        by (nonlinear_arith)
        requires
            0 <= b.1 - c.1 < 0x1_0000_0000,
            -0x1_0000_0000 < a.0 - c.0 < 0x1_0000_0000;
    let n: i128 = c.0 as i128 * d as i128 + (b.1 as i128 - c.1 as i128) * (a.0 as i128 - c.0 as i128);
    let dd: i128 = 2 * d as i128;
    let q: i128 = if n >= 0 { (2 * n + d as i128) / dd } else { -((2 * (-n) + d as i128) / dd) };
    q as i32
}

/// A buffer of `n` copies of `v`.
pub(crate) fn filled_i32(n: usize, v: i32) -> (r: Vec<i32>)
    ensures
        r@ == Seq::new(n as nat, |i: int| v),
{
    let mut r: Vec<i32> = Vec::new();
    while r.len() < n
        invariant
            r@.len() <= n,
            r@ == Seq::new(r@.len(), |i: int| v),
        decreases n - r@.len(),
    {
        r.push(v);
        assert(r@ =~= Seq::new(r@.len(), |i: int| v));
    }
    r
}

/// For each row from `ylo`, the least x among the points of `pts` on it.
pub(crate) fn row_minima(pts: &Vec<(i32, i32)>, ylo: i64, n: usize) -> (r: Vec<i32>)
    requires
        i32::MIN <= ylo <= i32::MAX,
        n <= 0x1_0000_0000,
    ensures
        r@.len() == n,
        forall|i: int| 0 <= i < n ==> r@[i] == row_min(pair_view(pts@), ylo + i),
{
    let mut r = filled_i32(n, i32::MAX);
    let mut k: usize = 0;
    let ghost all = pair_view(pts@);
    while k < pts.len()
        invariant
            i32::MIN <= ylo <= i32::MAX,
            n <= 0x1_0000_0000,
            k <= pts@.len(),
            all == pair_view(pts@),
            r@.len() == n,
            forall|i: int| 0 <= i < n ==> r@[i] == row_min(all.take(k as int), ylo + i),
        decreases pts@.len() - k,
    {
        let (x, y) = pts[k];
        let ghost before = r@;
        proof {
            assert(all.take(k + 1).drop_last() =~= all.take(k as int));
            assert(all.take(k + 1).last() == (x as int, y as int));
        }
        if ylo <= y as i64 && (y as i64 - ylo) < n as i64 {
            let i = (y as i64 - ylo) as usize;
            if x < r[i] {
                r.set(i, x);
            }
        }
        proof {
            assert forall|j: int| 0 <= j < n implies r@[j] == row_min(all.take(k + 1), ylo + j) by {
                assert(before[j] == row_min(all.take(k as int), ylo + j));
                let t = all.take(k + 1);
                assert(row_min(t, ylo + j) == {
                    let rest = row_min(t.drop_last(), ylo + j);
                    if t.last().1 == ylo + j && t.last().0 < rest { t.last().0 } else { rest }
                });
            }
        }
        k += 1;
    }
    assert(all.take(k as int) =~= all);
    r
}

/// For each row from `ylo`, the greatest x among the points of `pts` on it.
pub(crate) fn row_maxima(pts: &Vec<(i32, i32)>, ylo: i64, n: usize) -> (r: Vec<i32>)
    requires
        i32::MIN <= ylo <= i32::MAX,
        n <= 0x1_0000_0000,
    ensures
        r@.len() == n,
        forall|i: int| 0 <= i < n ==> r@[i] == row_max(pair_view(pts@), ylo + i),
{
    let mut r = filled_i32(n, i32::MIN);
    let mut k: usize = 0;
    let ghost all = pair_view(pts@);
    while k < pts.len()
        invariant
            i32::MIN <= ylo <= i32::MAX,
            n <= 0x1_0000_0000,
            k <= pts@.len(),
            all == pair_view(pts@),
            r@.len() == n,
            forall|i: int| 0 <= i < n ==> r@[i] == row_max(all.take(k as int), ylo + i),
        decreases pts@.len() - k,
    {
        let (x, y) = pts[k];
        let ghost before = r@;
        proof {
            assert(all.take(k + 1).drop_last() =~= all.take(k as int));
            assert(all.take(k + 1).last() == (x as int, y as int));
        }
        if ylo <= y as i64 && (y as i64 - ylo) < n as i64 {
            let i = (y as i64 - ylo) as usize;
            if x > r[i] {
                r.set(i, x);
            }
        }
        proof {
            assert forall|j: int| 0 <= j < n implies r@[j] == row_max(all.take(k + 1), ylo + j) by {
                assert(before[j] == row_max(all.take(k as int), ylo + j));
                let t = all.take(k + 1);
                assert(row_max(t, ylo + j) == {
                    let rest = row_max(t.drop_last(), ylo + j);
                    if t.last().1 == ylo + j && t.last().0 > rest { t.last().0 } else { rest }
                });
            }
        }
        k += 1;
    }
    assert(all.take(k as int) =~= all);
    r
}

pub(crate) proof fn lemma_paint_points_append(px: Seq<u32>, w: int, c: u32, a: Seq<(int, int)>, b: Seq<(int, int)>)
    ensures
        paint_points(px, w, c, a + b) == paint_points(paint_points(px, w, c, a), w, c, b),
    decreases b.len(),
{
    if b.len() == 0 {
        assert(a + b =~= a);
    } else {
        assert((a + b).drop_last() =~= a + b.drop_last());
        lemma_paint_points_append(px, w, c, a, b.drop_last());
    }
}

pub(crate) proof fn lemma_paint_stroke_append(px: Seq<u32>, w: int, c: Option<u32>, a: Seq<(int, int)>, b: Seq<(int, int)>)
    ensures
        paint_stroke(px, w, c, a + b) == paint_stroke(paint_stroke(px, w, c, a), w, c, b),
{
    if let Some(c) = c {
        lemma_paint_points_append(px, w, c, a, b);
    }
}

pub(crate) proof fn lemma_paint_stroke_push(px: Seq<u32>, w: int, c: Option<u32>, a: Seq<(int, int)>, p: (int, int))
    ensures
        paint_stroke(px, w, c, a.push(p)) == paint_region(paint_stroke(px, w, c, a), w, c, at(p.0, p.1)),
{
    assert(a.push(p).drop_last() =~= a);
}

pub(crate) proof fn lemma_cell(k: int, w: int, h: int)
    requires
        0 <= k < w * h,
        w > 0,
    ensures
        0 <= k % w < w,
        0 <= k / w < h,
        k == (k / w) * w + k % w,
{
    lemma_fundamental_div_mod(k, w);
    assert(k / w < h) by (nonlinear_arith)
        requires k == w * (k / w) + k % w, 0 <= k % w < w, k < w * h, w > 0;
    assert(0 <= k / w) by (nonlinear_arith)
        requires k == w * (k / w) + k % w, 0 <= k % w < w, k >= 0, w > 0;
    assert(w * (k / w) == (k / w) * w) by (nonlinear_arith);
}

pub(crate) proof fn lemma_index(x: int, y: int, w: int, h: int)
    requires
        0 <= x < w,
        0 <= y < h,
    ensures
        0 <= y * w + x < w * h,
        (y * w + x) % w == x,
        (y * w + x) / w == y,
{
    assert(0 <= y * w + x < w * h) by (nonlinear_arith)
        requires 0 <= x < w, 0 <= y < h;
    lemma_fundamental_div_mod_converse(y * w + x, w, y, x);
}

/// Two coverings that agree on every pixel of a `w` by `h` buffer fill alike.
pub(crate) proof fn lemma_fill_region_ext(
    px: Seq<u32>,
    w: int,
    h: int,
    c: u32,
    p: spec_fn(int, int) -> bool,
    q: spec_fn(int, int) -> bool,
)
    requires
        px.len() == w * h,
        w >= 0,
        forall|a: int, b: int| 0 <= a < w && 0 <= b < h ==> #[trigger] p(a, b) == q(a, b),
    ensures
        fill_region(px, w, c, p) == fill_region(px, w, c, q),
{
    assert forall|k: int| 0 <= k < px.len() implies fill_region(px, w, c, p)[k] == fill_region(
        px, w, c, q)[k] by {
        if w > 0 {
            lemma_cell(k, w, h);
        } else {
            assert(w * h == 0) by (nonlinear_arith) requires w == 0;
        }
    }
    assert(fill_region(px, w, c, p) =~= fill_region(px, w, c, q));
}

/// Filling two coverings that share no pixel, one after the other, is
/// filling their union.
pub(crate) proof fn lemma_fill_region_union(
    px: Seq<u32>,
    w: int,
    c: u32,
    p: spec_fn(int, int) -> bool,
    q: spec_fn(int, int) -> bool,
)
    requires
        forall|a: int, b: int| !(#[trigger] p(a, b) && q(a, b)),
    ensures
        fill_region(fill_region(px, w, c, p), w, c, q) == fill_region(
            px,
            w,
            c,
            |a: int, b: int| p(a, b) || q(a, b),
        ),
{
    assert(fill_region(fill_region(px, w, c, p), w, c, q) =~= fill_region(
        px,
        w,
        c,
        |a: int, b: int| p(a, b) || q(a, b),
    ));
}

/// Filling `p` and then `q`, which share no pixel, is filling `r` when `r`
/// covers exactly the pixels of either.
pub(crate) proof fn lemma_fill_region_extend(
    px: Seq<u32>,
    w: int,
    h: int,
    c: u32,
    p: spec_fn(int, int) -> bool,
    q: spec_fn(int, int) -> bool,
    r: spec_fn(int, int) -> bool,
)
    requires
        px.len() == w * h,
        w >= 0,
        forall|a: int, b: int| !(#[trigger] p(a, b) && q(a, b)),
        forall|a: int, b: int| 0 <= a < w && 0 <= b < h ==> #[trigger] r(a, b) == (p(a, b) || q(
            a,
            b,
        )),
    ensures
        fill_region(fill_region(px, w, c, p), w, c, q) == fill_region(px, w, c, r),
{
    lemma_fill_region_union(px, w, c, p, q);
    let u = |a: int, b: int| p(a, b) || q(a, b);
    assert forall|a: int, b: int| 0 <= a < w && 0 <= b < h implies #[trigger] u(a, b) == r(a, b) by {}
    lemma_fill_region_ext(px, w, h, c, u, r);
}

/// `px` with colour `color_at(x, y)` composited over each pixel `(x, y)` of
/// a buffer `w` pixels wide for which `covers(x, y)` holds.
pub open spec fn paint_cells(
    px: Seq<u32>,
    w: int,
    covers: spec_fn(int, int) -> bool,
    color_at: spec_fn(int, int) -> u32,
) -> Seq<u32> {
    Seq::new(
        px.len(),
        |k: int|
            if covers(k % w, k / w) {
                over(px[k], color_at(k % w, k / w)) as u32
            } else {
                px[k]
            },
    )
}

/// The cells of a `cw` by `ch` grid of colours `colors` (row by row) laid
/// with their first cell on pixel `(ox, oy)`.
pub open spec fn grid_cover(ox: int, oy: int, cw: int, ch: int) -> spec_fn(int, int) -> bool {
    |a: int, b: int| 0 <= a - ox < cw && 0 <= b - oy < ch
}

pub open spec fn grid_color(colors: Seq<u32>, ox: int, oy: int, cw: int) -> spec_fn(int, int) -> u32 {
    |a: int, b: int| colors[(b - oy) * cw + (a - ox)]
}

pub(crate) proof fn lemma_paint_cells_ext(
    px: Seq<u32>,
    w: int,
    h: int,
    p: spec_fn(int, int) -> bool,
    q: spec_fn(int, int) -> bool,
    col: spec_fn(int, int) -> u32,
)
    requires
        px.len() == w * h,
        w >= 0,
        forall|a: int, b: int| 0 <= a < w && 0 <= b < h ==> #[trigger] p(a, b) == q(a, b),
    ensures
        paint_cells(px, w, p, col) == paint_cells(px, w, q, col),
{
    assert forall|k: int| 0 <= k < px.len() implies paint_cells(px, w, p, col)[k] == paint_cells(
        px, w, q, col)[k] by {
        if w > 0 {
            lemma_cell(k, w, h);
        } else {
            assert(w * h == 0) by (nonlinear_arith) requires w == 0;
        }
    }
    assert(paint_cells(px, w, p, col) =~= paint_cells(px, w, q, col));
}

pub(crate) proof fn lemma_paint_cells_step(
    px: Seq<u32>,
    w: int,
    h: int,
    p: spec_fn(int, int) -> bool,
    r: spec_fn(int, int) -> bool,
    col: spec_fn(int, int) -> u32,
    x: int,
    y: int,
)
    requires
        px.len() == w * h,
        w > 0,
        !p(x, y),
        forall|a: int, b: int| 0 <= a < w && 0 <= b < h ==> #[trigger] r(a, b) == (p(a, b) || (a == x
            && b == y)),
    ensures
        fill_region(paint_cells(px, w, p, col), w, col(x, y), at(x, y)) == paint_cells(px, w, r, col),
{
    assert forall|k: int| 0 <= k < px.len() implies fill_region(paint_cells(px, w, p, col), w, col(x, y), at(x, y))[k]
        == paint_cells(px, w, r, col)[k] by {
        lemma_cell(k, w, h);
    }
    assert(fill_region(paint_cells(px, w, p, col), w, col(x, y), at(x, y)) =~= paint_cells(px, w, r, col));
}

/// The opaque colour of pixel `i` of `data` (three bytes per pixel).
pub open spec fn rgb_at(data: Seq<u8>, i: int) -> u32 {
    pack(255, data[3 * i] as int, data[3 * i + 1] as int, data[3 * i + 2] as int) as u32
}

/// The colour of glyph cell `i`: the fill colour's channels with the
/// cell's coverage as alpha.
pub open spec fn glyph_at(coverage: Seq<u8>, fill: u32, i: int) -> u32 {
    pack(coverage[i] as int, red_of(fill), green_of(fill), blue_of(fill)) as u32
}

/// The opaque colours of the `n` pixels of `data`.
pub open spec fn image_colors(data: Seq<u8>, n: int) -> Seq<u32> {
    Seq::new(n as nat, |k: int| rgb_at(data, k))
}

/// The colours of the `n` cells of a glyph's coverage map.
pub open spec fn glyph_colors(coverage: Seq<u8>, fill: u32, n: int) -> Seq<u32> {
    Seq::new(n as nat, |k: int| glyph_at(coverage, fill, k))
}

/// A buffer of `n` pixels, all `color`.
pub(crate) fn filled(n: usize, color: u32) -> (r: Vec<u32>)
    ensures
        r@ == Seq::new(n as nat, |i: int| color),
{
    let mut r: Vec<u32> = Vec::new();
    while r.len() < n
        invariant
            r@.len() <= n,
            r@ == Seq::new(r@.len(), |i: int| color),
        decreases n - r@.len(),
    {
        r.push(color);
        assert(r@ =~= Seq::new(r@.len(), |i: int| color));
    }
    r
}

} // verus!
