//! Bresenham lines: the pixel path between two points.
use vstd::prelude::*;
use vstd::arithmetic::div_mod::lemma_fundamental_div_mod;
use vstd::arithmetic::div_mod::lemma_fundamental_div_mod_converse;

verus! {


pub open spec fn abs(v: int) -> int {
    if v < 0 { -v } else { v }
}

pub open spec fn sign(v: int) -> int {
    if v < 0 { -1 } else { 1 }
}

/// Offset along the minor axis of the `k`-th point of a Bresenham walk that
/// takes `major` steps along its major axis and `minor` (at most `major`)
/// along the other: `k * minor / major` rounded to the nearest integer,
/// halves rounded down.
pub open spec fn minor_offset(major: int, minor: int, k: int) -> int {
    if major == 0 { 0 } else { (2 * minor * k + major - 1) / (2 * major) }
}

/// The `k`-th point of the x-major walk from `(x0, y0)` towards `(x1, y1)`.
pub open spec fn low_point(x0: int, y0: int, x1: int, y1: int, k: int) -> (int, int) {
    (x0 + k, y0 + sign(y1 - y0) * minor_offset(x1 - x0, abs(y1 - y0), k))
}

/// The `k`-th point of the y-major walk from `(x0, y0)` towards `(x1, y1)`.
pub open spec fn high_point(x0: int, y0: int, x1: int, y1: int, k: int) -> (int, int) {
    (x0 + sign(x1 - x0) * minor_offset(y1 - y0, abs(x1 - x0), k), y0 + k)
}

/// The x-major walk, one point per column from `x0` to `x1`.
pub open spec fn low_walk(x0: int, y0: int, x1: int, y1: int) -> Seq<(int, int)> {
    Seq::new((x1 - x0 + 1) as nat, |k: int| low_point(x0, y0, x1, y1, k))
}

/// The y-major walk, one point per row from `y0` to `y1`.
pub open spec fn high_walk(x0: int, y0: int, x1: int, y1: int) -> Seq<(int, int)> {
    Seq::new((y1 - y0 + 1) as nat, |k: int| high_point(x0, y0, x1, y1, k))
}

/// The Bresenham path from `(x0, y0)` to `(x1, y1)`, both included. The walk
/// always runs along increasing x (for lines flatter than the diagonal) or
/// increasing y (otherwise); when that means starting at `(x1, y1)`, the
/// walk is listed backwards so that the path starts at `(x0, y0)`.
pub open spec fn line_points(x0: int, y0: int, x1: int, y1: int) -> Seq<(int, int)> {
    if abs(y1 - y0) < abs(x1 - x0) {
        if x0 > x1 { low_walk(x1, y1, x0, y0).reverse() } else { low_walk(x0, y0, x1, y1) }
    } else {
        if y0 > y1 { high_walk(x1, y1, x0, y0).reverse() } else { high_walk(x0, y0, x1, y1) }
    }
}

pub open spec fn pair_view(s: Seq<(i32, i32)>) -> Seq<(int, int)> {
    s.map_values(|p: (i32, i32)| (p.0 as int, p.1 as int))
}

/// How one step of the walk moves the minor axis: by one when the decision
/// value `2 minor (k + 1) - major - 2 major m` is positive, else not at all.
proof fn lemma_offset_step(major: int, minor: int, k: int)
    requires
        0 <= minor <= major,
        0 < major,
        0 <= k,
    ensures
        minor_offset(major, minor, k + 1) == minor_offset(major, minor, k) + (if 2 * minor * (k
            + 1) - major - 2 * major * minor_offset(major, minor, k) > 0 {
            1int
        } else {
            0int
        }),
        0 <= minor_offset(major, minor, k),
        k <= major ==> minor_offset(major, minor, k) <= minor,
        minor_offset(major, minor, 0) == 0,
        minor_offset(major, minor, major) == minor,
{
    let d = 2 * major;
    let xk = 2 * minor * k + major - 1;
    let xk1 = 2 * minor * (k + 1) + major - 1;
    let m = xk / d;
    lemma_fundamental_div_mod(xk, d);
    assert(m * d <= xk < m * d + d) by (nonlinear_arith)
        requires xk == d * m + xk % d, 0 <= xk % d < d;
    assert(xk1 == xk + 2 * minor) by (nonlinear_arith)
        requires xk == 2 * minor * k + major - 1, xk1 == 2 * minor * (k + 1) + major - 1;
    assert(xk >= 0) by (nonlinear_arith)
        requires xk == 2 * minor * k + major - 1, minor >= 0, k >= 0, major > 0;
    assert(m >= 0) by (nonlinear_arith)
        requires m * d <= xk < m * d + d, d > 0, xk >= 0;
    let delta = 2 * minor * (k + 1) - major - 2 * major * m;
    if delta > 0 {
        let r = xk1 - (m + 1) * d;
        assert(0 <= r < d) by (nonlinear_arith)
            requires
                r == xk1 - (m + 1) * d, xk1 == xk + 2 * minor, xk < m * d + d,
                delta == 2 * minor * (k + 1) - major - 2 * major * m, delta > 0,
                d == 2 * major, minor <= major, xk1 == 2 * minor * (k + 1) + major - 1;
        lemma_fundamental_div_mod_converse(xk1, d, m + 1, r);
    } else {
        let r = xk1 - m * d;
        assert(0 <= r < d) by (nonlinear_arith)
            requires
                r == xk1 - m * d, xk1 == xk + 2 * minor, m * d <= xk, minor >= 0,
                delta == 2 * minor * (k + 1) - major - 2 * major * m, delta <= 0,
                d == 2 * major, xk1 == 2 * minor * (k + 1) + major - 1;
        lemma_fundamental_div_mod_converse(xk1, d, m, r);
    }
    if k <= major {
        assert(m <= minor) by (nonlinear_arith)
            requires
                m * d <= xk, xk == 2 * minor * k + major - 1, d == 2 * major, k <= major,
                minor >= 0, major > 0;
    }
    lemma_fundamental_div_mod_converse(major - 1, d, 0, major - 1);
    assert(2 * minor * 0 + major - 1 == major - 1);
    let xm = 2 * minor * major + major - 1;
    assert(xm == minor * d + (major - 1)) by (nonlinear_arith)
        requires xm == 2 * minor * major + major - 1, d == 2 * major;
    lemma_fundamental_div_mod_converse(xm, d, minor, major - 1);
}

/// The x-major walk from `(x0, y0)` to `(x1, y1)`, `x0 <= x1`.
fn plot_line_low(x0: i32, y0: i32, x1: i32, y1: i32) -> (r: Vec<(i32, i32)>)
    requires
        x0 <= x1,
        abs(y1 - y0) <= x1 - x0,
    ensures
        pair_view(r@) == low_walk(x0 as int, y0 as int, x1 as int, y1 as int),
{
    let dx: i64 = x1 as i64 - x0 as i64;
    let mut dy: i64 = y1 as i64 - y0 as i64;
    let mut yi: i64 = 1;
    if dy < 0 {
        yi = -1;
        dy = -dy;
    }
    let mut delta: i64 = 2 * dy - dx;
    let mut y: i64 = y0 as i64;
    let mut x: i64 = x0 as i64;
    let mut result: Vec<(i32, i32)> = Vec::new();
    let ghost spec_walk = low_walk(x0 as int, y0 as int, x1 as int, y1 as int);
    proof {
        if dx > 0 {
            lemma_offset_step(dx as int, dy as int, 0);
        }
        assert(yi * 0 == 0) by (nonlinear_arith);
        assert(2 * dy * (0 + 1) - dx - 2 * dx * 0 == 2 * dy - dx) by (nonlinear_arith);
    }
    while x <= x1 as i64
        invariant
            dx == x1 - x0, dy == abs(y1 - y0), yi == sign(y1 - y0),
            0 <= dy <= dx,
            x0 <= x <= x1 + 1,
            result@.len() == x - x0,
            y == y0 + yi * minor_offset(dx as int, dy as int, x - x0),
            dx > 0 ==> delta == 2 * dy * (x - x0 + 1) - dx - 2 * dx * minor_offset(
                dx as int, dy as int, x - x0),
            dx == 0 ==> delta == 0,
            forall|j: int| 0 <= j < result@.len() ==> (result@[j].0 as int, result@[j].1 as int)
                == #[trigger] spec_walk[j],
            spec_walk == low_walk(x0 as int, y0 as int, x1 as int, y1 as int),
        decreases x1 - x + 1,
    {
        let ghost k = x - x0;
        let ghost m = minor_offset(dx as int, dy as int, k);
        if dx > 0 {
            proof {
                lemma_offset_step(dx as int, dy as int, k);
            }
        }
        assert(0 <= m <= dy) by {
            if dx > 0 {
                lemma_offset_step(dx as int, dy as int, k);
            }
        }
        assert(y0 <= y <= y1 || y1 <= y <= y0) by (nonlinear_arith)
            requires
                y == y0 + yi * m, 0 <= m <= dy, dy == abs(y1 - y0), yi == sign(y1 - y0);
        result.push((x as i32, y as i32));
        if delta > 0 {
            y += yi;
            delta += 2 * (dy - dx);
        } else {
            delta += 2 * dy;
        }
        x += 1;
        proof {
            if dx > 0 {
                assert(2 * dy * (k + 1 + 1) - dx - 2 * dx * (m + 1) == 2 * dy * (k + 1) - dx - 2 * dx
                    * m + 2 * (dy - dx)) by (nonlinear_arith);
                assert(2 * dy * (k + 1 + 1) - dx - 2 * dx * m == 2 * dy * (k + 1) - dx - 2 * dx * m
                    + 2 * dy) by (nonlinear_arith);
                assert(yi * (m + 1) == yi * m + yi) by (nonlinear_arith);
            } else {
                assert(minor_offset(dx as int, dy as int, k + 1) == 0);
            }
            assert(spec_walk[k] == low_point(x0 as int, y0 as int, x1 as int, y1 as int, k));
        }
    }
    proof {
        assert(pair_view(result@) =~= spec_walk);
    }
    result
}

/// The y-major walk from `(x0, y0)` to `(x1, y1)`, `y0 <= y1`.
fn plot_line_high(x0: i32, y0: i32, x1: i32, y1: i32) -> (r: Vec<(i32, i32)>)
    requires
        y0 <= y1,
        abs(x1 - x0) <= y1 - y0,
    ensures
        pair_view(r@) == high_walk(x0 as int, y0 as int, x1 as int, y1 as int),
{
    let dy: i64 = y1 as i64 - y0 as i64;
    let mut dx: i64 = x1 as i64 - x0 as i64;
    let mut xi: i64 = 1;
    if dx < 0 {
        xi = -1;
        dx = -dx;
    }
    let mut delta: i64 = 2 * dx - dy;
    let mut y: i64 = y0 as i64;
    let mut x: i64 = x0 as i64;
    let mut result: Vec<(i32, i32)> = Vec::new();
    let ghost spec_walk = high_walk(x0 as int, y0 as int, x1 as int, y1 as int);
    proof {
        if dy > 0 {
            lemma_offset_step(dy as int, dx as int, 0);
        }
        assert(xi * 0 == 0) by (nonlinear_arith);
        assert(2 * dx * (0 + 1) - dy - 2 * dy * 0 == 2 * dx - dy) by (nonlinear_arith);
    }
    while y <= y1 as i64
        invariant
            dy == y1 - y0, dx == abs(x1 - x0), xi == sign(x1 - x0),
            0 <= dx <= dy,
            y0 <= y <= y1 + 1,
            result@.len() == y - y0,
            x == x0 + xi * minor_offset(dy as int, dx as int, y - y0),
            dy > 0 ==> delta == 2 * dx * (y - y0 + 1) - dy - 2 * dy * minor_offset(
                dy as int, dx as int, y - y0),
            dy == 0 ==> delta == 0,
            forall|j: int| 0 <= j < result@.len() ==> (result@[j].0 as int, result@[j].1 as int)
                == #[trigger] spec_walk[j],
            spec_walk == high_walk(x0 as int, y0 as int, x1 as int, y1 as int),
        decreases y1 - y + 1,
    {
        let ghost k = y - y0;
        let ghost m = minor_offset(dy as int, dx as int, k);
        if dy > 0 {
            proof {
                lemma_offset_step(dy as int, dx as int, k);
            }
        }
        assert(0 <= m <= dx) by {
            if dy > 0 {
                lemma_offset_step(dy as int, dx as int, k);
            }
        }
        assert(x0 <= x <= x1 || x1 <= x <= x0) by (nonlinear_arith)
            requires
                x == x0 + xi * m, 0 <= m <= dx, dx == abs(x1 - x0), xi == sign(x1 - x0);
        result.push((x as i32, y as i32));
        if delta > 0 {
            x += xi;
            delta += 2 * (dx - dy);
        } else {
            delta += 2 * dx;
        }
        y += 1;
        proof {
            if dy > 0 {
                assert(2 * dx * (k + 1 + 1) - dy - 2 * dy * (m + 1) == 2 * dx * (k + 1) - dy - 2 * dy
                    * m + 2 * (dx - dy)) by (nonlinear_arith);
                assert(2 * dx * (k + 1 + 1) - dy - 2 * dy * m == 2 * dx * (k + 1) - dy - 2 * dy * m
                    + 2 * dx) by (nonlinear_arith);
                assert(xi * (m + 1) == xi * m + xi) by (nonlinear_arith);
            } else {
                assert(minor_offset(dy as int, dx as int, k + 1) == 0);
            }
            assert(spec_walk[k] == high_point(x0 as int, y0 as int, x1 as int, y1 as int, k));
        }
    }
    proof {
        assert(pair_view(result@) =~= spec_walk);
    }
    result
}


/// `s` listed backwards.
fn reversed(s: Vec<(i32, i32)>) -> (r: Vec<(i32, i32)>)
    ensures
        r@ == s@.reverse(),
{
    let mut r: Vec<(i32, i32)> = Vec::new();
    let mut i: usize = s.len();
    while i > 0
        invariant
            i <= s@.len(),
            r@ == s@.subrange(i as int, s@.len() as int).reverse(),
        decreases i,
    {
        i -= 1;
        r.push(s[i]);
        assert(r@ =~= s@.subrange(i as int, s@.len() as int).reverse());
    }
    assert(s@.subrange(0, s@.len() as int) =~= s@);
    r
}

/// The Bresenham path from `(x0, y0)` to `(x1, y1)`, endpoints included,
/// starting at `(x0, y0)`.
pub fn trace_line(x0: i32, y0: i32, x1: i32, y1: i32) -> (r: Vec<(i32, i32)>)
    ensures
        pair_view(r@) == line_points(x0 as int, y0 as int, x1 as int, y1 as int),
{
    let ady: i64 = if y1 >= y0 { y1 as i64 - y0 as i64 } else { y0 as i64 - y1 as i64 };
    let adx: i64 = if x1 >= x0 { x1 as i64 - x0 as i64 } else { x0 as i64 - x1 as i64 };
    if ady < adx {
        if x0 > x1 {
            let w = plot_line_low(x1, y1, x0, y0);
            let r = reversed(w);
            assert(pair_view(r@) =~= pair_view(w@).reverse());
            r
        } else {
            plot_line_low(x0, y0, x1, y1)
        }
    } else {
        if y0 > y1 {
            let w = plot_line_high(x1, y1, x0, y0);
            let r = reversed(w);
            assert(pair_view(r@) =~= pair_view(w@).reverse());
            r
        } else {
            plot_line_high(x0, y0, x1, y1)
        }
    }
}

pub open spec fn adjacent(p: (int, int), q: (int, int)) -> bool {
    &&& abs(q.0 - p.0) <= 1
    &&& abs(q.1 - p.1) <= 1
    &&& p != q
}

proof fn lemma_low_walk_shape(x0: int, y0: int, x1: int, y1: int)
    requires
        x0 <= x1,
        abs(y1 - y0) <= x1 - x0,
    ensures
        low_walk(x0, y0, x1, y1)[0] == (x0, y0),
        low_walk(x0, y0, x1, y1).last() == (x1, y1),
        forall|k: int| 0 <= k < x1 - x0 ==> adjacent(
            #[trigger] low_walk(x0, y0, x1, y1)[k], low_walk(x0, y0, x1, y1)[k + 1]),
{
    let dx = x1 - x0;
    let dy = abs(y1 - y0);
    let s = sign(y1 - y0);
    if dx > 0 {
        lemma_offset_step(dx, dy, 0);
    }
    assert(s * 0 == 0) by (nonlinear_arith);
    assert(y0 + s * dy == y1);
    assert forall|k: int| 0 <= k < x1 - x0 implies adjacent(
        #[trigger] low_walk(x0, y0, x1, y1)[k], low_walk(x0, y0, x1, y1)[k + 1]) by {
        lemma_offset_step(dx, dy, k);
        let m = minor_offset(dx, dy, k);
        let m1 = minor_offset(dx, dy, k + 1);
        assert(s * m1 - s * m == s * (m1 - m)) by (nonlinear_arith);
    }
}

proof fn lemma_high_walk_shape(x0: int, y0: int, x1: int, y1: int)
    requires
        y0 <= y1,
        abs(x1 - x0) <= y1 - y0,
    ensures
        high_walk(x0, y0, x1, y1)[0] == (x0, y0),
        high_walk(x0, y0, x1, y1).last() == (x1, y1),
        forall|k: int| 0 <= k < y1 - y0 ==> adjacent(
            #[trigger] high_walk(x0, y0, x1, y1)[k], high_walk(x0, y0, x1, y1)[k + 1]),
{
    let dy = y1 - y0;
    let dx = abs(x1 - x0);
    let s = sign(x1 - x0);
    if dy > 0 {
        lemma_offset_step(dy, dx, 0);
    }
    assert(s * 0 == 0) by (nonlinear_arith);
    assert(x0 + s * dx == x1);
    assert forall|k: int| 0 <= k < y1 - y0 implies adjacent(
        #[trigger] high_walk(x0, y0, x1, y1)[k], high_walk(x0, y0, x1, y1)[k + 1]) by {
        lemma_offset_step(dy, dx, k);
        let m = minor_offset(dy, dx, k);
        let m1 = minor_offset(dy, dx, k + 1);
        assert(s * m1 - s * m == s * (m1 - m)) by (nonlinear_arith);
    }
}

/// A traced line starts at the first endpoint given, ends at the second, and
/// each point is one of the eight neighbours of the one before.
pub proof fn lemma_line_endpoints_connected(x0: int, y0: int, x1: int, y1: int)
    ensures
        line_points(x0, y0, x1, y1).len() >= 1,
        line_points(x0, y0, x1, y1)[0] == (x0, y0),
        line_points(x0, y0, x1, y1).last() == (x1, y1),
        forall|k: int| 0 <= k < line_points(x0, y0, x1, y1).len() - 1 ==> adjacent(
            #[trigger] line_points(x0, y0, x1, y1)[k], line_points(x0, y0, x1, y1)[k + 1]),
{
    let l = line_points(x0, y0, x1, y1);
    if abs(y1 - y0) < abs(x1 - x0) {
        if x0 > x1 {
            lemma_low_walk_shape(x1, y1, x0, y0);
            let w = low_walk(x1, y1, x0, y0);
            assert forall|k: int| 0 <= k < l.len() - 1 implies adjacent(
                #[trigger] l[k], l[k + 1]) by {
                let j = w.len() - 2 - k;
                assert(w[j] == l[k + 1] && w[j + 1] == l[k]);
            }
        } else {
            lemma_low_walk_shape(x0, y0, x1, y1);
        }
    } else {
        if y0 > y1 {
            lemma_high_walk_shape(x1, y1, x0, y0);
            let w = high_walk(x1, y1, x0, y0);
            assert forall|k: int| 0 <= k < l.len() - 1 implies adjacent(
                #[trigger] l[k], l[k + 1]) by {
                let j = w.len() - 2 - k;
                assert(w[j] == l[k + 1] && w[j + 1] == l[k]);
            }
        } else {
            lemma_high_walk_shape(x0, y0, x1, y1);
        }
    }
}

} // verus!
