//! Triangulation of a polygon given as two vertex chains that leave a
//! shared top vertex: each step cuts off one ear next to the top, choosing
//! among at most three candidates the one whose lowest-reaching vertex is
//! highest (least greatest y).
use vstd::prelude::*;

verus! {

pub open spec fn pt(p: (i32, i32)) -> (int, int) {
    (p.0 as int, p.1 as int)
}

/// Twice the signed area of the triangle `a`, `b`, `c`: positive when the
/// three turn counter-clockwise with y pointing up.
pub open spec fn area2(a: (int, int), b: (int, int), c: (int, int)) -> int {
    (b.0 - a.0) * (c.1 - a.1) - (b.1 - a.1) * (c.0 - a.0)
}

pub open spec fn det(a: (int, int), b: (int, int)) -> int {
    a.0 * b.1 - b.0 * a.1
}

/// The shoelace sum along the open path `s`.
pub open spec fn path_sum(s: Seq<(int, int)>) -> int
    decreases s.len(),
{
    if s.len() < 2 {
        0
    } else {
        path_sum(s.drop_last()) + det(s[s.len() - 2], s.last())
    }
}

/// Twice the signed area of the closed polygon `s` (shoelace formula).
pub open spec fn shoelace(s: Seq<(int, int)>) -> int {
    if s.len() == 0 { 0 } else { path_sum(s) + det(s.last(), s[0]) }
}

/// The boundary of the polygon: down the main chain, then back up the
/// right chain to the top.
pub open spec fn boundary(pts: Seq<(i32, i32)>, main: Seq<usize>, right: Seq<usize>) -> Seq<(int, int)> {
    (main + right.reverse()).map_values(|i: usize| pt(pts[i as int]))
}

pub open spec fn tri_area2(pts: Seq<(i32, i32)>, t: (usize, usize, usize)) -> int {
    area2(pt(pts[t.0 as int]), pt(pts[t.1 as int]), pt(pts[t.2 as int]))
}

/// The summed doubled signed areas of the triangles `ts`.
pub open spec fn total_area2(pts: Seq<(i32, i32)>, ts: Seq<(usize, usize, usize)>) -> int
    decreases ts.len(),
{
    if ts.len() == 0 { 0 } else { total_area2(pts, ts.drop_last()) + tri_area2(pts, ts.last()) }
}

/// The greatest y among the vertices of `t`.
pub open spec fn lowest(pts: Seq<(i32, i32)>, t: (usize, usize, usize)) -> int {
    let (a, b, c) = (pts[t.0 as int].1 as int, pts[t.1 as int].1 as int, pts[t.2 as int].1 as int);
    if a >= b && a >= c { a } else if b >= c { b } else { c }
}

/// The ear at the top vertex: `(main[0], main[1], right[0])`.
pub open spec fn ear_top(main: Seq<usize>, right: Seq<usize>) -> (usize, usize, usize) {
    (main[0], main[1], right[0])
}

/// The ear at the second vertex of the main chain.
pub open spec fn ear_main(main: Seq<usize>) -> (usize, usize, usize) {
    (main[0], main[1], main[2])
}

/// The ear at the first vertex of the right chain, in boundary order.
pub open spec fn ear_right(main: Seq<usize>, right: Seq<usize>) -> (usize, usize, usize) {
    (main[0], right[1], right[0])
}

/// Which ear the next step cuts: 1 for `ear_top`, 2 for `ear_main`, 3 for
/// `ear_right`, 0 when none can be cut. `ear_main` and `ear_right` need a
/// convex corner (positive `area2` in boundary order); among the candidates
/// the least `lowest` wins, the earlier on a tie.
pub open spec fn choice(pts: Seq<(i32, i32)>, main: Seq<usize>, right: Seq<usize>) -> int {
    let ok1 = main.len() >= 2 && right.len() >= 1;
    let ok2 = main.len() >= 3 && tri_area2(pts, ear_main(main)) > 0;
    let ok3 = main.len() >= 1 && right.len() >= 2 && tri_area2(pts, ear_right(main, right)) > 0;
    let best1 = if ok1 { 1int } else { 0int };
    let best2 = if ok2 && (best1 == 0 || lowest(pts, ear_main(main)) < lowest(pts, ear_top(main, right))) {
        2int
    } else {
        best1
    };
    let key2 = if best2 == 1 {
        lowest(pts, ear_top(main, right))
    } else {
        lowest(pts, ear_main(main))
    };
    if ok3 && (best2 == 0 || lowest(pts, ear_right(main, right)) < key2) {
        3
    } else {
        best2
    }
}

/// The triangles cut from the polygon of chains `main` and `right`, each
/// listed in boundary order, or `None` when some step finds no ear to cut
/// (or the chains hold fewer than three vertices).
pub open spec fn monotone_triangles(pts: Seq<(i32, i32)>, main: Seq<usize>, right: Seq<usize>) -> Option<
    Seq<(usize, usize, usize)>,
>
    decreases main.len() + right.len(),
{
    let n = main.len() + right.len();
    if n < 3 || main.len() == 0 {
        None
    } else if n == 3 {
        let c = main + right.reverse();
        Some(seq![(c[0], c[1], c[2])])
    } else {
        let k = choice(pts, main, right);
        if k == 0 {
            None
        } else {
            let (t, rest) = if k == 1 {
                (ear_top(main, right), monotone_triangles(pts, main.drop_first(), right))
            } else if k == 2 {
                (ear_main(main), monotone_triangles(pts, main.remove(1), right))
            } else {
                (ear_right(main, right), monotone_triangles(pts, main, right.drop_first()))
            };
            match rest {
                Some(r) => Some(seq![t] + r),
                None => None,
            }
        }
    }
}

proof fn lemma_area2_rotate(a: (int, int), b: (int, int), c: (int, int))
    ensures
        area2(a, b, c) == area2(b, c, a),
        area2(a, b, c) == det(a, b) + det(b, c) - det(a, c),
{
    assert(area2(a, b, c) == area2(b, c, a)) by (nonlinear_arith);
    assert(area2(a, b, c) == det(a, b) + det(b, c) - det(a, c)) by (nonlinear_arith);
}

proof fn lemma_path_sum_front(s: Seq<(int, int)>)
    requires
        s.len() >= 2,
    ensures
        path_sum(s) == det(s[0], s[1]) + path_sum(s.drop_first()),
    decreases s.len(),
{
    let n = s.len();
    if n > 2 {
        lemma_path_sum_front(s.drop_last());
        assert(s.drop_last().drop_first() =~= s.drop_first().drop_last());
        let t = s.drop_first();
        assert(path_sum(t) == path_sum(t.drop_last()) + det(t[t.len() - 2], t.last()));
        assert(t[t.len() - 2] == s[n - 2] && t.last() == s.last());
        assert(path_sum(s) == path_sum(s.drop_last()) + det(s[n - 2], s.last()));
        assert(s.drop_last()[0] == s[0] && s.drop_last()[1] == s[1]);
    } else {
        assert(path_sum(s.drop_first()) == 0);
        assert(path_sum(s.drop_last()) == 0);
        assert(path_sum(s) == path_sum(s.drop_last()) + det(s[0], s[1]));
    }
}

/// Cutting the first vertex off a closed polygon removes the ear there.
proof fn lemma_shoelace_drop_first(s: Seq<(int, int)>)
    requires
        s.len() >= 3,
    ensures
        shoelace(s) == shoelace(s.drop_first()) + area2(s.last(), s[0], s[1]),
{
    lemma_path_sum_front(s);
    lemma_area2_rotate(s.last(), s[0], s[1]);
}

/// Cutting the last vertex off a closed polygon removes the ear there.
proof fn lemma_shoelace_drop_last(s: Seq<(int, int)>)
    requires
        s.len() >= 3,
    ensures
        shoelace(s) == shoelace(s.drop_last()) + area2(s[s.len() - 2], s.last(), s[0]),
{
    lemma_area2_rotate(s[s.len() - 2], s.last(), s[0]);
}

/// Cutting the second vertex off a closed polygon removes the ear there.
proof fn lemma_shoelace_remove_second(s: Seq<(int, int)>)
    requires
        s.len() >= 3,
    ensures
        shoelace(s) == shoelace(s.remove(1)) + area2(s[0], s[1], s[2]),
{
    let r = s.remove(1);
    lemma_path_sum_front(s);
    lemma_path_sum_front(s.drop_first());
    lemma_path_sum_front(r);
    assert(r.drop_first() =~= s.drop_first().drop_first());
    assert(r.last() == s.last());
    lemma_area2_rotate(s[0], s[1], s[2]);
}

proof fn lemma_total_single(pts: Seq<(i32, i32)>, t: (usize, usize, usize))
    ensures
        total_area2(pts, seq![t]) == tri_area2(pts, t),
{
    let s = seq![t];
    assert(s.drop_last() =~= Seq::<(usize, usize, usize)>::empty());
    assert(total_area2(pts, s.drop_last()) == 0);
    assert(s.last() == t);
}

proof fn lemma_total_append(pts: Seq<(i32, i32)>, a: Seq<(usize, usize, usize)>, b: Seq<(usize, usize, usize)>)
    ensures
        total_area2(pts, a + b) == total_area2(pts, a) + total_area2(pts, b),
    decreases b.len(),
{
    if b.len() == 0 {
        assert(a + b =~= a);
    } else {
        assert((a + b).drop_last() =~= a + b.drop_last());
        lemma_total_append(pts, a, b.drop_last());
    }
}

/// The triangles cut from a polygon given as two chains tile its area:
/// their doubled signed areas add up to the shoelace sum of the boundary,
/// and there are two fewer of them than vertices.
pub proof fn lemma_monotone_area(pts: Seq<(i32, i32)>, main: Seq<usize>, right: Seq<usize>)
    ensures
        monotone_triangles(pts, main, right) is Some ==> {
            let ts = monotone_triangles(pts, main, right).unwrap();
            &&& ts.len() == main.len() + right.len() - 2
            &&& total_area2(pts, ts) == shoelace(boundary(pts, main, right))
        },
    decreases main.len() + right.len(),
{
    let n = main.len() + right.len();
    let c = boundary(pts, main, right);
    if n < 3 || main.len() == 0 {
    } else if n == 3 {
        let ts = monotone_triangles(pts, main, right).unwrap();
        let cc = main + right.reverse();
        assert(ts.drop_last().len() == 0);
        assert(total_area2(pts, ts.drop_last()) == 0);
        assert(total_area2(pts, ts) == tri_area2(pts, ts.last()));
        assert(c.len() == 3);
        let c1 = c.drop_last();
        let c0 = c1.drop_last();
        assert(path_sum(c0) == 0);
        assert(path_sum(c1) == path_sum(c0) + det(c[0], c[1]));
        assert(path_sum(c) == path_sum(c1) + det(c[1], c[2]));
        lemma_area2_rotate(c[0], c[1], c[2]);
        assert(c[0] == pt(pts[cc[0] as int]) && c[1] == pt(pts[cc[1] as int]) && c[2] == pt(
            pts[cc[2] as int]));
        assert(tri_area2(pts, ts.last()) == area2(c[0], c[1], c[2]));
    } else {
        let k = choice(pts, main, right);
        if k == 1 {
            let m1 = main.drop_first();
            let t = ear_top(main, right);
            lemma_monotone_area(pts, m1, right);
            assert(boundary(pts, m1, right) =~= c.drop_first());
            lemma_shoelace_drop_first(c);
            lemma_area2_rotate(c.last(), c[0], c[1]);
            assert(c.last() == pt(pts[right[0] as int]));
            if monotone_triangles(pts, m1, right) is Some {
                let rest = monotone_triangles(pts, m1, right).unwrap();
                assert(monotone_triangles(pts, main, right) == Some(seq![t] + rest));
                lemma_total_append(pts, seq![t], rest);
                lemma_total_single(pts, t);
            }
        } else if k == 2 {
            let m1 = main.remove(1);
            let t = ear_main(main);
            lemma_monotone_area(pts, m1, right);
            assert(boundary(pts, m1, right) =~= c.remove(1));
            lemma_shoelace_remove_second(c);
            if monotone_triangles(pts, m1, right) is Some {
                let rest = monotone_triangles(pts, m1, right).unwrap();
                assert(monotone_triangles(pts, main, right) == Some(seq![t] + rest));
                lemma_total_append(pts, seq![t], rest);
                lemma_total_single(pts, t);
            }
        } else if k == 3 {
            let r1 = right.drop_first();
            let t = ear_right(main, right);
            lemma_monotone_area(pts, main, r1);
            assert(boundary(pts, main, r1) =~= c.drop_last());
            lemma_shoelace_drop_last(c);
            lemma_area2_rotate(c[c.len() - 2], c.last(), c[0]);
            lemma_area2_rotate(c.last(), c[0], c[c.len() - 2]);
            assert(c.last() == pt(pts[right[0] as int]));
            assert(c[c.len() - 2] == pt(pts[right[1] as int]));
            if monotone_triangles(pts, main, r1) is Some {
                let rest = monotone_triangles(pts, main, r1).unwrap();
                assert(monotone_triangles(pts, main, right) == Some(seq![t] + rest));
                lemma_total_append(pts, seq![t], rest);
                lemma_total_single(pts, t);
            }
        }
    }
}

pub open spec fn prepend(done: Seq<(usize, usize, usize)>, rest: Option<Seq<(usize, usize, usize)>>) -> Option<
    Seq<(usize, usize, usize)>,
> {
    match rest {
        Some(r) => Some(done + r),
        None => None,
    }
}

fn area2_of(pts: &Vec<(i32, i32)>, t: (usize, usize, usize)) -> (r: i128)
    requires
        t.0 < pts@.len(), t.1 < pts@.len(), t.2 < pts@.len(),
    ensures
        r == tri_area2(pts@, t),
{
    let (a, b, c) = (pts[t.0], pts[t.1], pts[t.2]);
    let (ax, ay, bx, by, cx, cy) = (a.0 as i128, a.1 as i128, b.0 as i128, b.1 as i128, c.0 as i128, c.1 as i128);
    assert(-0x4_0000_0000_0000_0000 <= (bx - ax) * (cy - ay) <= 0x4_0000_0000_0000_0000) by (nonlinear_arith)
        requires -0x1_0000_0000 <= bx - ax <= 0x1_0000_0000, -0x1_0000_0000 <= cy - ay <= 0x1_0000_0000;
    assert(-0x4_0000_0000_0000_0000 <= (by - ay) * (cx - ax) <= 0x4_0000_0000_0000_0000) by (nonlinear_arith)
        requires -0x1_0000_0000 <= by - ay <= 0x1_0000_0000, -0x1_0000_0000 <= cx - ax <= 0x1_0000_0000;
    (bx - ax) * (cy - ay) - (by - ay) * (cx - ax)
}

fn lowest_of(pts: &Vec<(i32, i32)>, t: (usize, usize, usize)) -> (r: i32)
    requires
        t.0 < pts@.len(), t.1 < pts@.len(), t.2 < pts@.len(),
    ensures
        r == lowest(pts@, t),
{
    let (a, b, c) = (pts[t.0].1, pts[t.1].1, pts[t.2].1);
    if a >= b && a >= c { a } else if b >= c { b } else { c }
}

pub open spec fn indices_in(s: Seq<usize>, n: int) -> bool {
    forall|i: int| 0 <= i < s.len() ==> (#[trigger] s[i] as int) < n
}

fn choose_ear(pts: &Vec<(i32, i32)>, main: &Vec<usize>, right: &Vec<usize>) -> (k: u8)
    requires
        indices_in(main@, pts@.len() as int),
        indices_in(right@, pts@.len() as int),
    ensures
        k == choice(pts@, main@, right@),
{
    let ok1 = main.len() >= 2 && right.len() >= 1;
    let ok2 = main.len() >= 3 && area2_of(pts, (main[0], main[1], main[2])) > 0;
    let ok3 = main.len() >= 1 && right.len() >= 2 && area2_of(pts, (main[0], right[1], right[0])) > 0;
    let mut best: u8 = if ok1 { 1 } else { 0 };
    let mut key: i32 = if ok1 { lowest_of(pts, (main[0], main[1], right[0])) } else { 0 };
    if ok2 {
        let k2 = lowest_of(pts, (main[0], main[1], main[2]));
        if best == 0 || k2 < key {
            best = 2;
            key = k2;
        }
    }
    if ok3 {
        let k3 = lowest_of(pts, (main[0], right[1], right[0]));
        if best == 0 || k3 < key {
            best = 3;
        }
    }
    best
}

fn copy_indices(v: &Vec<usize>) -> (r: Vec<usize>)
    ensures
        r@ == v@,
{
    let mut r: Vec<usize> = Vec::new();
    let mut i: usize = 0;
    while i < v.len()
        invariant
            i <= v@.len(),
            r@ == v@.subrange(0, i as int),
        decreases v@.len() - i,
    {
        r.push(v[i]);
        i += 1;
        assert(r@ =~= v@.subrange(0, i as int));
    }
    assert(r@ =~= v@);
    r
}

/// Triangulates the polygon whose boundary runs from the top vertex down
/// the chain `main` and back up the chain `right` (indices into `points`;
/// `main[0]` is the top, `right[0]` its neighbour on the other side).
/// Each step cuts off the ear at the top, at `main[1]` or at `right[0]`,
/// as `choice` says; the triangles come in boundary order. `None` when a
/// step finds no ear to cut, or the chains hold fewer than three vertices.
pub fn triangulate_monotone(points: &Vec<(i32, i32)>, main: &Vec<usize>, right: &Vec<usize>) -> (r:
    Option<Vec<(usize, usize, usize)>>)
    requires
        indices_in(main@, points@.len() as int),
        indices_in(right@, points@.len() as int),
    ensures
        match r {
            Some(ts) => monotone_triangles(points@, main@, right@) == Some(ts@),
            None => monotone_triangles(points@, main@, right@) is None,
        },
{
    let mut m = copy_indices(main);
    let mut rt = copy_indices(right);
    let mut out: Vec<(usize, usize, usize)> = Vec::new();
    let ghost goal = monotone_triangles(points@, main@, right@);
    assert(Seq::<(usize, usize, usize)>::empty() + Seq::<(usize, usize, usize)>::empty() =~= Seq::<(usize, usize, usize)>::empty());
    proof {
        match monotone_triangles(points@, m@, rt@) {
            Some(x) => { assert(out@ + x =~= x); },
            None => {},
        }
    }
    loop
        invariant
            indices_in(m@, points@.len() as int),
            indices_in(rt@, points@.len() as int),
            goal == monotone_triangles(points@, main@, right@),
            goal == prepend(out@, monotone_triangles(points@, m@, rt@)),
        decreases m@.len() + rt@.len(),
    {
        let n = m.len() as u128 + rt.len() as u128;
        if n < 3 || m.len() == 0 {
            return None;
        }
        if n == 3 {
            let ghost c = m@ + rt@.reverse();
            let t = if m.len() == 3 {
                (m[0], m[1], m[2])
            } else if m.len() == 2 {
                (m[0], m[1], rt[0])
            } else {
                (m[0], rt[1], rt[0])
            };
            assert(t == (c[0], c[1], c[2]));
            let ghost before = out@;
            out.push(t);
            assert(out@ =~= before + seq![t]);
            return Some(out);
        }
        let k = choose_ear(points, &m, &rt);
        if k == 0 {
            return None;
        }
        let ghost before = out@;
        let ghost (m0, r0) = (m@, rt@);
        if k == 1 {
            out.push((m[0], m[1], rt[0]));
            m.remove(0);
            assert(m@ =~= m0.drop_first());
        } else if k == 2 {
            out.push((m[0], m[1], m[2]));
            m.remove(1);
        } else {
            out.push((m[0], rt[1], rt[0]));
            rt.remove(0);
            assert(rt@ =~= r0.drop_first());
        }
        proof {
            assert forall|i: int| 0 <= i < m@.len() implies (#[trigger] m@[i] as int) < points@.len() by {
                if k == 1 { assert(m@[i] == m0[i + 1]); }
                else if k == 2 { if i >= 1 { assert(m@[i] == m0[i + 1]); } else { assert(m@[i] == m0[i]); } }
                else { assert(m@[i] == m0[i]); }
            }
            assert forall|i: int| 0 <= i < rt@.len() implies (#[trigger] rt@[i] as int) < points@.len() by {
                if k == 3 { assert(rt@[i] == r0[i + 1]); } else { assert(rt@[i] == r0[i]); }
            }
            let t = out@.last();
            match monotone_triangles(points@, m@, rt@) {
                Some(x) => {
                    assert(monotone_triangles(points@, m0, r0) == Some(seq![t] + x));
                    assert(before + (seq![t] + x) =~= out@ + x);
                },
                None => {
                    assert(monotone_triangles(points@, m0, r0) is None);
                },
            }
        }
    }
}

} // verus!
