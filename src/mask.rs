//! Stroke masks: the footprint a pen leaves around each traced point.
use vstd::prelude::*;
use vstd::arithmetic::div_mod::lemma_fundamental_div_mod_converse;
use crate::geometry::StrokeMode;

verus! {

pub open spec fn lex_lt(p: (int, int), q: (int, int)) -> bool {
    p.0 < q.0 || (p.0 == q.0 && p.1 < q.1)
}

/// The offsets within distance `w` of the centre.
pub open spec fn in_disk(p: (int, int), w: int) -> bool {
    &&& -w <= p.0 <= w
    &&& -w <= p.1 <= w
    &&& p.0 * p.0 + p.1 * p.1 <= w * w
}

pub open spec fn offset_view(s: Seq<(i8, i8)>) -> Seq<(int, int)> {
    s.map_values(|p: (i8, i8)| (p.0 as int, p.1 as int))
}

/// Strictly increasing in x, then y.
pub open spec fn sorted(s: Seq<(int, int)>) -> bool {
    forall|i: int, j: int| 0 <= i < j < s.len() ==> #[trigger] lex_lt(s[i], s[j])
}

/// `m` lists the offsets of the disk of radius `w` once each, in order.
pub open spec fn is_disk_mask(m: Seq<(int, int)>, w: int) -> bool {
    &&& sorted(m)
    &&& forall|p: (int, int)| m.contains(p) <==> #[trigger] in_disk(p, w)
}

/// The offsets of the disk of radius `w`, in increasing x and then y order.
pub open spec fn disk_mask(w: int) -> Seq<(int, int)> {
    choose|m: Seq<(int, int)>| is_disk_mask(m, w)
}

/// Two sorted sequences that hold the same elements are equal.
proof fn lemma_sorted_unique(a: Seq<(int, int)>, b: Seq<(int, int)>)
    requires
        sorted(a),
        sorted(b),
        forall|p: (int, int)| #![trigger a.contains(p)] #![trigger b.contains(p)] a.contains(p) <==> b.contains(p),
    ensures
        a == b,
    decreases a.len(),
{
    if a.len() == 0 {
        if b.len() > 0 {
            assert(b.contains(b[0]));
        }
        assert(a =~= b);
    } else {
        assert(a.contains(a[0]));
        assert(b.len() > 0);
        assert(b.contains(b[0]));
        let j = choose|j: int| 0 <= j < b.len() && b[j] == a[0];
        let i = choose|i: int| 0 <= i < a.len() && a[i] == b[0];
        if j > 0 {
            assert(lex_lt(b[0], b[j]));
            if i > 0 {
                assert(lex_lt(a[0], a[i]));
            }
        }
        assert(a[0] == b[0]);
        let a1 = a.drop_first();
        let b1 = b.drop_first();
        assert forall|p: (int, int)| #![trigger a1.contains(p)] #![trigger b1.contains(p)] a1.contains(p) <==> b1.contains(p) by {
            if a1.contains(p) {
                let k = choose|k: int| 0 <= k < a1.len() && a1[k] == p;
                assert(lex_lt(a[0], a[k + 1]));
                assert(a.contains(p));
                let m = choose|m: int| 0 <= m < b.len() && b[m] == p;
                assert(m != 0);
                assert(b1[m - 1] == p);
            }
            if b1.contains(p) {
                let k = choose|k: int| 0 <= k < b1.len() && b1[k] == p;
                assert(lex_lt(b[0], b[k + 1]));
                assert(b.contains(p));
                let m = choose|m: int| 0 <= m < a.len() && a[m] == p;
                assert(m != 0);
                assert(a1[m - 1] == p);
            }
        }
        assert(sorted(a1)) by {
            assert forall|i: int, j: int| 0 <= i < j < a1.len() implies #[trigger] lex_lt(a1[i], a1[j]) by {
                assert(lex_lt(a[i + 1], a[j + 1]));
            }
        }
        assert(sorted(b1)) by {
            assert forall|i: int, j: int| 0 <= i < j < b1.len() implies #[trigger] lex_lt(b1[i], b1[j]) by {
                assert(lex_lt(b[i + 1], b[j + 1]));
            }
        }
        lemma_sorted_unique(a1, b1);
        assert(a =~= b) by {
            assert forall|k: int| 0 <= k < a.len() implies a[k] == b[k] by {
                if k > 0 {
                    assert(a[k] == a1[k - 1]);
                }
            }
        }
    }
}

/// The stroke footprint of a round pen of radius `weight`: every offset of
/// the disk of that radius, once, in increasing x and then y order.
pub fn circular_mask(weight: i8) -> (mask: Vec<(i8, i8)>)
    ensures
        offset_view(mask@) == disk_mask(weight as int),
        forall|i: int, j: int| 0 <= i < j < mask@.len() ==> #[trigger] lex_lt(offset_view(mask@)[i], offset_view(mask@)[j]),
        forall|p: (int, int)| offset_view(mask@).contains(p) <==> #[trigger] in_disk(p, weight as int),
{
    let mut mask: Vec<(i8, i8)> = Vec::new();
    let w: i32 = weight as i32;
    assert(0 <= w * w <= 128 * 128) by (nonlinear_arith)
        requires -128 <= w <= 127;
    let w2: i32 = w * w;
    let mut x: i32 = -w;
    while x <= w
        invariant
            w == weight, w2 == w * w, w2 <= 16384,
            -w <= x,
            w >= 0 ==> x <= w + 1,
            w < 0 ==> mask@.len() == 0,
            forall|i: int| 0 <= i < mask@.len() ==> offset_view(mask@)[i].0 < x,
            forall|i: int| 0 <= i < mask@.len() ==> in_disk(#[trigger] offset_view(mask@)[i], w as int),
            forall|i: int, j: int| 0 <= i < j < mask@.len() ==> #[trigger] lex_lt(offset_view(mask@)[i], offset_view(mask@)[j]),
            forall|p: (int, int)| p.0 < x && #[trigger] in_disk(p, w as int) ==> offset_view(mask@).contains(p),
        decreases w - x + 1,
    {
        let mut y: i32 = -w;
        let ghost row_start = mask@.len();
        while y <= w
            invariant
                w == weight, w2 == w * w, w2 <= 16384,
                -w <= x <= w,
                -w <= y <= w + 1,
                row_start <= mask@.len(),
                forall|i: int| 0 <= i < row_start ==> offset_view(mask@)[i].0 < x,
                forall|i: int| row_start <= i < mask@.len() ==> offset_view(mask@)[i].0 == x
                    && offset_view(mask@)[i].1 < y,
                forall|i: int| 0 <= i < mask@.len() ==> in_disk(#[trigger] offset_view(mask@)[i], w as int),
                forall|i: int, j: int| 0 <= i < j < mask@.len() ==> #[trigger] lex_lt(offset_view(mask@)[i], offset_view(mask@)[j]),
                forall|p: (int, int)| (p.0 < x || (p.0 == x && p.1 < y)) && #[trigger] in_disk(p, w as int)
                    ==> offset_view(mask@).contains(p),
            decreases w - y + 1,
        {
            assert(0 <= x * x <= w * w && 0 <= y * y <= w * w) by (nonlinear_arith)
                requires -w <= x <= w, -w <= y <= w;
            if x * x + y * y <= w2 {
                let ghost before = mask@;
                mask.push((x as i8, y as i8));
                proof {
                    assert forall|i: int| 0 <= i < before.len() implies offset_view(mask@)[i]
                        == #[trigger] offset_view(before)[i] by {
                        assert(mask@[i] == before[i]);
                    }
                    assert(offset_view(mask@)[before.len() as int] == (x as int, y as int));
                    assert(in_disk((x as int, y as int), w as int));
                    assert forall|i: int| 0 <= i < mask@.len() implies in_disk(
                        #[trigger] offset_view(mask@)[i], w as int) by {
                        if i < before.len() {
                            assert(offset_view(mask@)[i] == offset_view(before)[i]);
                        }
                    }
                    assert forall|i: int, j: int| 0 <= i < j < mask@.len() implies #[trigger] lex_lt(
                        offset_view(mask@)[i], offset_view(mask@)[j]) by {
                        assert(offset_view(mask@)[i] == offset_view(before)[i]);
                        if j < before.len() {
                            assert(offset_view(mask@)[j] == offset_view(before)[j]);
                            assert(lex_lt(offset_view(before)[i], offset_view(before)[j]));
                        } else if i < row_start {
                        } else {
                        }
                    }
                    assert forall|i: int| 0 <= i < row_start implies offset_view(mask@)[i].0 < x by {
                        assert(offset_view(mask@)[i] == offset_view(before)[i]);
                    }
                    assert forall|i: int| row_start <= i < mask@.len() implies offset_view(mask@)[i].0 == x
                        && offset_view(mask@)[i].1 < y + 1 by {
                        if i < before.len() {
                            assert(offset_view(mask@)[i] == offset_view(before)[i]);
                        }
                    }
                    assert forall|p: (int, int)| (p.0 < x || (p.0 == x && p.1 < y + 1))
                        && #[trigger] in_disk(p, w as int) implies offset_view(mask@).contains(p) by {
                        if p.0 < x || (p.0 == x && p.1 < y) {
                            let i = choose|i: int| 0 <= i < before.len() && offset_view(before)[i] == p;
                            assert(offset_view(mask@)[i] == p);
                        } else {
                            assert(offset_view(mask@)[before.len() as int] == p);
                        }
                    }
                }
            } else {
                proof {
                    assert forall|p: (int, int)| (p.0 < x || (p.0 == x && p.1 < y + 1))
                        && #[trigger] in_disk(p, w as int) implies offset_view(mask@).contains(p) by {
                        if p.0 == x && p.1 == y {
                            assert(false);
                        }
                    }
                }
            }
            y += 1;
        }
        x += 1;
    }
    proof {
        let v = offset_view(mask@);
        assert(is_disk_mask(v, weight as int));
        let m = disk_mask(weight as int);
        assert(is_disk_mask(m, weight as int));
        assert forall|p: (int, int)| #![trigger v.contains(p)] #![trigger m.contains(p)] v.contains(p) <==> m.contains(p) by {
            assert(v.contains(p) <==> in_disk(p, weight as int));
            assert(m.contains(p) <==> in_disk(p, weight as int));
        }
        lemma_sorted_unique(v, m);
    }
    mask
}

/// The stroke footprint of a square pen of half-side `weight`: the boundary
/// of the square, as four points per step `v` from `-weight` to `weight`:
/// `(-weight, v)`, `(weight, v)`, `(v, -weight)`, `(v, weight)`.
pub open spec fn square_mask_points(w: int) -> Seq<(int, int)> {
    Seq::new(
        if w < 0 { 0nat } else { (4 * (2 * w + 1)) as nat },
        |k: int|
            {
                let v = -w + k / 4;
                if k % 4 == 0 {
                    (-w, v)
                } else if k % 4 == 1 {
                    (w, v)
                } else if k % 4 == 2 {
                    (v, -w)
                } else {
                    (v, w)
                }
            },
    )
}

proof fn lemma_div4(i: int, j: int)
    requires
        0 <= i,
        0 <= j < 4,
    ensures
        (4 * i + j) / 4 == i,
        (4 * i + j) % 4 == j,
{
    lemma_fundamental_div_mod_converse(4 * i + j, 4, i, j);
}

/// The square stroke footprint of `square_mask_points`.
pub fn square_mask(weight: i8) -> (mask: Vec<(i8, i8)>)
    ensures
        offset_view(mask@) == square_mask_points(weight as int),
{
    let mut mask: Vec<(i8, i8)> = Vec::new();
    if weight < 0 {
        assert(offset_view(mask@) =~= square_mask_points(weight as int));
        return mask;
    }
    let v1: i8 = -weight;
    let v2: i8 = weight;
    let mut v: i8 = v1;
    let ghost spec_mask = square_mask_points(weight as int);
    loop
        invariant_except_break
            mask@.len() == 4 * (v - v1),
        invariant
            0 <= weight, v1 == -weight, v2 == weight,
            v1 <= v <= v2,
            spec_mask == square_mask_points(weight as int),
            forall|k: int| 0 <= k < mask@.len() ==> offset_view(mask@)[k] == #[trigger] spec_mask[k],
        ensures
            mask@.len() == spec_mask.len(),
            forall|k: int| 0 <= k < mask@.len() ==> offset_view(mask@)[k] == #[trigger] spec_mask[k],
        decreases v2 - v,
    {
        let ghost i = v - v1;
        mask.push((v1, v));
        mask.push((v2, v));
        mask.push((v, v1));
        mask.push((v, v2));
        proof {
            assert forall|j: int| 0 <= j < 4 implies offset_view(mask@)[4 * i + j] == #[trigger] spec_mask[4 * i + j] by {
                lemma_div4(i, j);
            }
            assert forall|k: int| 0 <= k < mask@.len() implies offset_view(mask@)[k] == #[trigger] spec_mask[k] by {
                if k >= 4 * i {
                    assert(offset_view(mask@)[4 * i + (k - 4 * i)] == spec_mask[4 * i + (k - 4 * i)]);
                }
            }
        }
        if v == v2 {
            break;
        }
        v += 1;
    }
    assert(offset_view(mask@) =~= spec_mask);
    mask
}


/// The footprint of the pen `mode` at stroke weight `weight`.
pub open spec fn pen_mask(mode: StrokeMode, weight: i8) -> Seq<(int, int)> {
    match mode {
        StrokeMode::Circle => disk_mask(weight as int),
        StrokeMode::Square => square_mask_points(weight as int),
        StrokeMode::Custom(offsets) => offset_view(offsets@),
    }
}

/// The footprint of the pen `mode` at stroke weight `weight`.
pub fn generate_mask(mode: &StrokeMode, weight: i8) -> (mask: Vec<(i8, i8)>)
    ensures
        offset_view(mask@) == pen_mask(*mode, weight),
{
    match mode {
        StrokeMode::Circle => circular_mask(weight),
        StrokeMode::Square => square_mask(weight),
        StrokeMode::Custom(offsets) => {
            let mut out: Vec<(i8, i8)> = Vec::new();
            let mut i: usize = 0;
            while i < offsets.len()
                invariant
                    i <= offsets@.len(),
                    out@ == offsets@.subrange(0, i as int),
                decreases offsets@.len() - i,
            {
                out.push(offsets[i]);
                i += 1;
                assert(out@ =~= offsets@.subrange(0, i as int));
            }
            assert(out@ =~= offsets@);
            out
        },
    }
}

} // verus!
