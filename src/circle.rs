//! Midpoint circles: the pixel ring of a given radius about a centre.
use vstd::prelude::*;
use vstd::arithmetic::div_mod::lemma_fundamental_div_mod_converse;
use crate::line::pair_view;

verus! {

/// The midpoint decision value at `(x, y)` for a circle of radius `r`, as the
/// walk below keeps it: `3 - 2r` at `(0, r)`, growing by `4x + 6` on a step
/// along x and by `4(x - y) + 14` on a diagonal step.
pub open spec fn circle_decision(x: int, y: int, r: int) -> int {
    2 * x * x + 4 * x + 2 * y * y - 6 * y + 3 + 4 * r - 2 * r * r
}

/// The points `(x, y)` of the midpoint walk over one octant, from `(x, y)`
/// on, while `y >= x`: a diagonal step when the decision value is positive,
/// else a step along x.
pub open spec fn octant_walk(x: int, y: int, r: int) -> Seq<(int, int)>
    decreases y - x + 2,
{
    if y < x {
        Seq::empty()
    } else if circle_decision(x, y, r) > 0 {
        seq![(x, y)] + octant_walk(x + 1, y - 1, r)
    } else {
        seq![(x, y)] + octant_walk(x + 1, y, r)
    }
}

/// The `j`-th of the eight mirror images of `(x, y)` about `(xc, yc)`.
pub open spec fn octant_point(xc: int, yc: int, x: int, y: int, j: int) -> (int, int) {
    if j == 0 {
        (xc + x, yc + y)
    } else if j == 1 {
        (xc + y, yc + x)
    } else if j == 2 {
        (xc - x, yc + y)
    } else if j == 3 {
        (xc - y, yc + x)
    } else if j == 4 {
        (xc + x, yc - y)
    } else if j == 5 {
        (xc + y, yc - x)
    } else if j == 6 {
        (xc - x, yc - y)
    } else {
        (xc - y, yc - x)
    }
}

/// The midpoint circle of radius `r` about `(xc, yc)`: each point of the
/// octant walk from `(0, r)`, followed by its eight mirror images.
pub open spec fn circle_points(xc: int, yc: int, r: int) -> Seq<(int, int)> {
    let w = octant_walk(0, r, r);
    Seq::new(8 * w.len(), |k: int| octant_point(xc, yc, w[k / 8].0, w[k / 8].1, k % 8))
}

proof fn lemma_div8(i: int, j: int)
    requires
        0 <= i,
        0 <= j < 8,
    ensures
        (8 * i + j) / 8 == i,
        (8 * i + j) % 8 == j,
{
    lemma_fundamental_div_mod_converse(8 * i + j, 8, i, j);
}

proof fn lemma_octant_walk_bounds(x: int, y: int, r: int)
    requires
        0 <= x,
        y <= r,
    ensures
        forall|i: int| 0 <= i < octant_walk(x, y, r).len() ==> {
            let p = #[trigger] octant_walk(x, y, r)[i];
            x <= p.0 <= p.1 <= r
        },
    decreases y - x + 2,
{
    if y >= x {
        if circle_decision(x, y, r) > 0 {
            lemma_octant_walk_bounds(x + 1, y - 1, r);
        } else {
            lemma_octant_walk_bounds(x + 1, y, r);
        }
        let w = octant_walk(x, y, r);
        assert forall|i: int| 0 <= i < w.len() implies {
            let p = #[trigger] w[i];
            x <= p.0 <= p.1 <= r
        } by {
            if i > 0 {
                if circle_decision(x, y, r) > 0 {
                    assert(w[i] == octant_walk(x + 1, y - 1, r)[i - 1]);
                } else {
                    assert(w[i] == octant_walk(x + 1, y, r)[i - 1]);
                }
            }
        }
    }
}

/// Appends the eight mirror images of `(x, y)` about `(xc, yc)`.
fn plot_on_all_octants(points: &mut Vec<(i32, i32)>, xc: i32, yc: i32, x: i32, y: i32)
    requires
        0 <= x <= y,
        i32::MIN <= xc - y, xc + y <= i32::MAX,
        i32::MIN <= yc - y, yc + y <= i32::MAX,
    ensures
        final(points)@.len() == old(points)@.len() + 8,
        forall|i: int| 0 <= i < old(points)@.len() ==> final(points)@[i] == old(points)@[i],
        forall|j: int| 0 <= j < 8 ==> {
            let p = #[trigger] final(points)@[old(points)@.len() + j];
            (p.0 as int, p.1 as int) == octant_point(xc as int, yc as int, x as int, y as int, j)
        },
{
    points.push((xc + x, yc + y));
    points.push((xc + y, yc + x));
    points.push((xc - x, yc + y));
    points.push((xc - y, yc + x));
    points.push((xc + x, yc - y));
    points.push((xc + y, yc - x));
    points.push((xc - x, yc - y));
    points.push((xc - y, yc - x));
}

/// The midpoint circle of radius `r` about `(xc, yc)`; empty when `r < 0`.
pub fn trace_circle(xc: i32, yc: i32, r: i32) -> (points: Vec<(i32, i32)>)
    requires
        r < 0 || (i32::MIN <= xc - r && xc + r <= i32::MAX && i32::MIN <= yc - r && yc + r
            <= i32::MAX),
    ensures
        pair_view(points@) == circle_points(xc as int, yc as int, r as int),
{
    let mut points: Vec<(i32, i32)> = Vec::new();
    let mut x: i64 = 0;
    let mut y: i64 = r as i64;
    let mut d: i128 = 3 - 2 * (r as i128);
    let ghost full = octant_walk(0, r as int, r as int);
    let ghost mut done: Seq<(int, int)> = Seq::empty();
    proof {
        lemma_octant_walk_bounds(0, r as int, r as int);
    }
    while y >= x
        invariant
            0 <= x,
            y <= r,
            r < 0 || (i32::MIN <= xc - r && xc + r <= i32::MAX && i32::MIN <= yc - r && yc + r
                <= i32::MAX),
            full == octant_walk(0, r as int, r as int),
            full == done + octant_walk(x as int, y as int, r as int),
            d == circle_decision(x as int, y as int, r as int),
            points@.len() == 8 * done.len(),
            forall|k: int| 0 <= k < points@.len() ==> {
                let p = #[trigger] points@[k];
                (p.0 as int, p.1 as int) == octant_point(
                    xc as int, yc as int, done[k / 8].0, done[k / 8].1, k % 8)
            },
        decreases y - x + 2,
    {
        proof {
            lemma_octant_walk_bounds(x as int, y as int, r as int);
        }
        let ghost before = points@;
        plot_on_all_octants(&mut points, xc, yc, x as i32, y as i32);
        let ghost old_done = done;
        proof {
            done = done.push((x as int, y as int));
            assert forall|k: int| 0 <= k < points@.len() implies {
                let p = #[trigger] points@[k];
                (p.0 as int, p.1 as int) == octant_point(
                    xc as int, yc as int, done[k / 8].0, done[k / 8].1, k % 8)
            } by {
                if k < before.len() {
                    assert(points@[k] == before[k]);
                    assert(k / 8 < old_done.len()) by {
                        vstd::arithmetic::div_mod::lemma_div_is_ordered(k, 8 * old_done.len() - 1, 8);
                        lemma_div8(old_done.len() - 1, 7);
                    }
                } else {
                    let j = k - before.len();
                    lemma_div8(old_done.len() as int, j);
                    assert(points@[before.len() + j] == points@[k]);
                }
            }
        }
        assert(x as int * x as int <= r as int * r as int) by (nonlinear_arith)
            requires 0 <= x <= y <= r;
        assert(y as int * y as int <= r as int * r as int) by (nonlinear_arith)
            requires 0 <= x <= y <= r;
        let ghost (x_was, y_was, d_was) = (x as int, y as int, d as int);
        assert(r as int * r as int <= 0x4000_0000_0000_0000) by (nonlinear_arith)
            requires 0 <= r <= i32::MAX;
        assert(-20 * (r as int * r as int) - 20 * r - 20 <= d <= 20 * (r as int * r as int) + 20 * r
            + 20) by (nonlinear_arith)
            requires
                d == circle_decision(x as int, y as int, r as int), 0 <= x <= y <= r,
                x as int * x as int <= r as int * r as int,
                y as int * y as int <= r as int * r as int;
        if d > 0 {
            y -= 1;
            d += 4 * (x as i128 - y as i128) + 10;
        } else {
            d += 4 * x as i128 + 6;
        }
        x += 1;
        proof {
            let (xn, yn, dn, ri) = (x as int, y as int, d as int, r as int);
            assert(circle_decision(xn, yn, ri) == dn) by (nonlinear_arith)
                requires
                    (d_was > 0 && xn == x_was + 1 && yn == y_was - 1 && dn == d_was + 4 * (x_was
                        - y_was + 1) + 10) || (d_was <= 0 && xn == x_was + 1 && yn == y_was && dn
                        == d_was + 4 * x_was + 6),
                    d_was == circle_decision(x_was, y_was, ri);
            assert(done + octant_walk(x as int, y as int, r as int) =~= full);
        }
    }
    proof {
        assert(octant_walk(x as int, y as int, r as int) =~= Seq::<(int, int)>::empty());
        assert(done =~= full);
        assert(pair_view(points@) =~= circle_points(xc as int, yc as int, r as int));
    }
    points
}

spec fn mirror_x(j: int) -> int {
    if j == 0 || j == 1 || j == 4 || j == 5 { j + 2 } else { j - 2 }
}

spec fn mirror_y(j: int) -> int {
    if j < 4 { j + 4 } else { j - 4 }
}

proof fn lemma_octant_mirror(x: int, y: int, j: int)
    requires
        0 <= j < 8,
    ensures
        0 <= mirror_x(j) < 8,
        0 <= mirror_y(j) < 8,
        octant_point(0, 0, x, y, mirror_x(j)) == (-octant_point(0, 0, x, y, j).0, octant_point(
            0, 0, x, y, j).1),
        octant_point(0, 0, x, y, mirror_y(j)) == (octant_point(0, 0, x, y, j).0, -octant_point(
            0, 0, x, y, j).1),
{
}

proof fn lemma_circle_index(r: int, k: int)
    requires
        0 <= k < circle_points(0, 0, r).len(),
    ensures
        ({
            let w = octant_walk(0, r, r);
            let i = k / 8;
            let j = k % 8;
            &&& 0 <= i < w.len()
            &&& 0 <= j < 8
            &&& k == 8 * i + j
            &&& circle_points(0, 0, r)[k] == octant_point(0, 0, w[i].0, w[i].1, j)
        }),
{
    let w = octant_walk(0, r, r);
    vstd::arithmetic::div_mod::lemma_fundamental_div_mod(k, 8);
    vstd::arithmetic::div_mod::lemma_div_is_ordered(k, 8 * w.len() - 1, 8);
    lemma_div8(w.len() - 1, 7);
}

proof fn lemma_circle_at(r: int, i: int, j: int)
    requires
        0 <= i < octant_walk(0, r, r).len(),
        0 <= j < 8,
    ensures
        0 <= 8 * i + j < circle_points(0, 0, r).len(),
        circle_points(0, 0, r)[8 * i + j] == octant_point(
            0, 0, octant_walk(0, r, r)[i].0, octant_walk(0, r, r)[i].1, j),
{
    lemma_div8(i, j);
}

/// A circle about the origin is its own mirror image across either axis.
pub proof fn lemma_circle_symmetric(r: int)
    requires
        r >= 0,
    ensures
        forall|p: (int, int)| #[trigger] circle_points(0, 0, r).contains(p) ==> {
            &&& circle_points(0, 0, r).contains((-p.0, p.1))
            &&& circle_points(0, 0, r).contains((p.0, -p.1))
        },
{
    let c = circle_points(0, 0, r);
    let w = octant_walk(0, r, r);
    assert forall|p: (int, int)| #[trigger] c.contains(p) implies {
        &&& c.contains((-p.0, p.1))
        &&& c.contains((p.0, -p.1))
    } by {
        let k = choose|k: int| 0 <= k < c.len() && c[k] == p;
        lemma_circle_index(r, k);
        let i = k / 8;
        let j = k % 8;
        lemma_octant_mirror(w[i].0, w[i].1, j);
        lemma_circle_at(r, i, mirror_x(j));
        lemma_circle_at(r, i, mirror_y(j));
        assert(c[8 * i + mirror_x(j)] == (-p.0, p.1));
        assert(c[8 * i + mirror_y(j)] == (p.0, -p.1));
    }
}

} // verus!
