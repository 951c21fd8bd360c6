//! Keyframe transitions: a point, or a list of points, moving from a start
//! target to an end target over a duration, along an easing curve. Time is
//! counted in whole milliseconds.
use vstd::prelude::*;
use crate::line::pair_view;

verus! {

#[derive(PartialEq, Eq, Structural, Clone, Copy, Debug)]
pub enum EasingType {
    Linear,
    SmoothStep,
    QuadIn,
    QuadOut,
}

/// Eased progress after `e` of `d` milliseconds (`0 <= e <= d`), as a
/// fraction of `d³`: with `t = e / d`, linear is `t`, smooth step
/// `3t² - 2t³`, quadratic-in `t²` and quadratic-out `2t - t²`.
pub open spec fn eased(kind: EasingType, e: int, d: int) -> int {
    match kind {
        EasingType::Linear => e * d * d,
        EasingType::SmoothStep => 3 * e * e * d - 2 * e * e * e,
        EasingType::QuadIn => e * e * d,
        EasingType::QuadOut => 2 * e * d * d - e * e * d,
    }
}

/// `n / d` rounded toward zero, `d > 0`.
pub open spec fn trunc_div(n: int, d: int) -> int {
    if n >= 0 { n / d } else { -((-n) / d) }
}

/// The blend `a (1 - t) + b t` for `t = num / den`, rounded toward zero.
pub open spec fn blend(a: int, b: int, num: int, den: int) -> int {
    trunc_div(a * (den - num) + b * num, den)
}

pub open spec fn blend_point(a: (int, int), b: (int, int), num: int, den: int) -> (int, int) {
    (blend(a.0, b.0, num, den), blend(a.1, b.1, num, den))
}

pub enum TargetView {
    Points(Seq<(int, int)>),
    Point((int, int)),
}

/// What a transition moves: a list of points, or a single point.
#[derive(Debug)]
pub enum TransitionTarget {
    Points { points: Vec<(i32, i32)> },
    Point { point: (i32, i32) },
}

impl View for TransitionTarget {
    type V = TargetView;

    open spec fn view(&self) -> TargetView {
        match self {
            TransitionTarget::Points { points } => TargetView::Points(pair_view(points@)),
            TransitionTarget::Point { point } => TargetView::Point(
                (point.0 as int, point.1 as int),
            ),
        }
    }
}

impl TransitionTarget {
    /// A copy of this target.
    pub fn duplicate(&self) -> (r: Self)
        ensures
            r@ == self@,
    {
        match self {
            TransitionTarget::Points { points } => {
                let mut out: Vec<(i32, i32)> = Vec::new();
                let mut i: usize = 0;
                while i < points.len()
                    invariant
                        i <= points@.len(),
                        out@ == points@.subrange(0, i as int),
                    decreases points@.len() - i,
                {
                    out.push(points[i]);
                    i += 1;
                    assert(out@ =~= points@.subrange(0, i as int));
                }
                assert(out@ =~= points@);
                TransitionTarget::Points { points: out }
            },
            TransitionTarget::Point { point } => TransitionTarget::Point { point: *point },
        }
    }
}

impl Clone for TransitionTarget {
    fn clone(&self) -> Self {
        self.duplicate()
    }
}

/// Two targets that can be blended: both single points, or both lists of
/// the same length.
pub open spec fn same_shape(a: TargetView, b: TargetView) -> bool {
    match (a, b) {
        (TargetView::Points(s), TargetView::Points(e)) => s.len() == e.len(),
        (TargetView::Point(_), TargetView::Point(_)) => true,
        _ => false,
    }
}

/// Each coordinate of `start` blended towards `end` by `num / den`.
pub open spec fn blend_target(start: TargetView, end: TargetView, num: int, den: int) -> TargetView {
    match (start, end) {
        (TargetView::Points(s), TargetView::Points(e)) => TargetView::Points(
            Seq::new(s.len(), |i: int| blend_point(s[i], e[i], num, den)),
        ),
        (TargetView::Point(s), TargetView::Point(e)) => TargetView::Point(
            blend_point(s, e, num, den),
        ),
        _ => start,
    }
}

/// The largest duration, `2^32 - 1` milliseconds, cubed.
pub open spec fn max_den() -> int {
    0xffff_ffffint * 0xffff_ffff * 0xffff_ffff
}

proof fn lemma_trunc_div_between(s: int, den: int, lo: int, hi: int)
    requires
        den > 0,
        lo <= hi,
        lo * den <= s <= hi * den,
    ensures
        lo <= trunc_div(s, den) <= hi,
{
    if s >= 0 {
        let q = s / den;
        vstd::arithmetic::div_mod::lemma_fundamental_div_mod(s, den);
        assert(q * den <= s < q * den + den) by (nonlinear_arith)
            requires s == den * q + s % den, 0 <= s % den < den;
        assert(q >= 0) by (nonlinear_arith)
            requires q * den <= s < q * den + den, den > 0, s >= 0;
        assert(q <= hi) by (nonlinear_arith)
            requires q * den <= s, s <= hi * den, den > 0;
        assert(lo <= q) by (nonlinear_arith)
            requires s < q * den + den, lo * den <= s, den > 0;
    } else {
        let t = -s;
        let q = t / den;
        vstd::arithmetic::div_mod::lemma_fundamental_div_mod(t, den);
        assert(q * den <= t < q * den + den) by (nonlinear_arith)
            requires t == den * q + t % den, 0 <= t % den < den;
        assert(q >= 0) by (nonlinear_arith)
            requires q * den <= t < q * den + den, den > 0, t >= 0;
        assert(q <= -lo) by (nonlinear_arith)
            requires q * den <= t, lo * den <= s, t == -s, den > 0;
        assert(-hi <= q) by (nonlinear_arith)
            requires t < q * den + den, s <= hi * den, t == -s, den > 0;
    }
}

/// Blending by a fraction between 0 and 1 stays between the two values.
proof fn lemma_blend_between(a: int, b: int, num: int, den: int)
    requires
        0 <= num <= den,
        den > 0,
    ensures
        a <= b ==> a <= blend(a, b, num, den) <= b,
        b < a ==> b <= blend(a, b, num, den) <= a,
        a <= b ==> a * den <= a * (den - num) + b * num <= b * den,
        b < a ==> b * den <= a * (den - num) + b * num <= a * den,
{
    let s = a * (den - num) + b * num;
    if a <= b {
        assert(a * den <= s <= b * den) by (nonlinear_arith)
            requires s == a * (den - num) + b * num, a <= b, 0 <= num <= den;
        lemma_trunc_div_between(s, den, a, b);
    } else {
        assert(b * den <= s <= a * den) by (nonlinear_arith)
            requires s == a * (den - num) + b * num, b < a, 0 <= num <= den;
        lemma_trunc_div_between(s, den, b, a);
    }
}

/// The blend of two coordinates by `num / den`, `0 <= num <= den`.
fn blend_coord(a: i32, b: i32, num: i128, den: i128) -> (r: i32)
    requires
        0 <= num <= den,
        0 < den <= max_den(),
    ensures
        r == blend(a as int, b as int, num as int, den as int),
{
    proof {
        lemma_blend_between(a as int, b as int, num as int, den as int);
    }
    let (ai, bi) = (a as i128, b as i128);
    assert(-0x8000_0000 * den <= ai * (den - num) <= 0x7fff_ffff * den) by (nonlinear_arith)
        requires -0x8000_0000 <= ai <= 0x7fff_ffff, 0 <= num <= den;
    assert(-0x8000_0000 * den <= bi * num <= 0x7fff_ffff * den) by (nonlinear_arith)
        requires -0x8000_0000 <= bi <= 0x7fff_ffff, 0 <= num <= den;
    assert(0x8000_0000 * den < 0x8000_0000_0000_0000_0000_0000_0000_0000 - 1) by (nonlinear_arith)
        requires den <= max_den();
    assert(-0x8000_0000 * den <= ai * (den - num) + bi * num <= 0x7fff_ffff * den) by (
        nonlinear_arith)
        requires
            -0x8000_0000 <= ai <= 0x7fff_ffff, -0x8000_0000 <= bi <= 0x7fff_ffff,
            0 <= num <= den;
    let s = ai * (den - num) + bi * num;
    let q = if s >= 0 { s / den } else { -((-s) / den) };
    q as i32
}

/// Blends `start` towards `end` by `num / den`, coordinate by coordinate.
fn interpolate(num: i128, den: i128, start: &TransitionTarget, end: &TransitionTarget) -> (r:
    TransitionTarget)
    requires
        0 <= num <= den,
        0 < den <= max_den(),
        same_shape(start@, end@),
    ensures
        r@ == blend_target(start@, end@, num as int, den as int),
{
    match (start, end) {
        (TransitionTarget::Points { points: s }, TransitionTarget::Points { points: e }) => {
            let mut out: Vec<(i32, i32)> = Vec::new();
            let mut i: usize = 0;
            while i < s.len()
                invariant
                    0 <= num <= den,
                    0 < den <= max_den(),
                    s@.len() == e@.len(),
                    i <= s@.len(),
                    out@.len() == i,
                    forall|j: int| 0 <= j < i ==> pair_view(out@)[j] == #[trigger] blend_point(
                        pair_view(s@)[j], pair_view(e@)[j], num as int, den as int),
                decreases s@.len() - i,
            {
                let p = (
                    blend_coord(s[i].0, e[i].0, num, den),
                    blend_coord(s[i].1, e[i].1, num, den),
                );
                out.push(p);
                i += 1;
            }
            let r = TransitionTarget::Points { points: out };
            assert(pair_view(out@) =~= Seq::new(
                pair_view(s@).len(),
                |j: int| blend_point(pair_view(s@)[j], pair_view(e@)[j], num as int, den as int),
            ));
            r
        },
        (TransitionTarget::Point { point: s }, TransitionTarget::Point { point: e }) => {
            TransitionTarget::Point {
                point: (blend_coord(s.0, e.0, num, den), blend_coord(s.1, e.1, num, den)),
            }
        },
        _ => {
            proof {
                assert(false);
            }
            start.duplicate()
        },
    }
}

impl EasingType {
    /// The eased progress after `e` of `d` milliseconds, as a fraction of
    /// `d³` (see `eased`).
    pub fn ease(&self, e: u32, d: u32) -> (n: i128)
        requires
            e <= d,
        ensures
            n == eased(*self, e as int, d as int),
            0 <= n <= d as int * d as int * d as int,
    {
        let (ei, di) = (e as i128, d as i128);
        proof {
            lemma_eased_bounds(*self, e as int, d as int);
        }
        assert(di * di * di <= max_den()) by (nonlinear_arith)
            requires 0 <= di <= 0xffff_ffff;
        assert(0 <= ei * ei <= di * di && 0 <= ei * di <= di * di) by (nonlinear_arith)
            requires 0 <= ei <= di;
        assert(ei * ei * ei <= di * di * di && ei * ei * di <= di * di * di && ei * di * di <= di
            * di * di) by (nonlinear_arith)
            requires 0 <= ei <= di;
        assert(0 <= di * di <= 0xffff_ffff * 0xffff_ffff) by (nonlinear_arith)
            requires 0 <= di <= 0xffff_ffff;
        assert(0 <= ei * ei * ei && 0 <= ei * ei * di && 0 <= ei * di * di) by (nonlinear_arith)
            requires 0 <= ei <= di;
        assert(0 <= 2 * ei * di <= 2 * (di * di)) by (nonlinear_arith)
            requires 0 <= ei <= di;
        assert(0 <= 3 * ei * ei <= 3 * (di * di) && 0 <= 2 * ei * ei <= 2 * (di * di)) by (
            nonlinear_arith)
            requires 0 <= ei <= di;
        assert(3 * ei * ei * di == 3 * (ei * ei * di) && 2 * ei * ei * ei == 2 * (ei * ei * ei) && 2
            * ei * di * di == 2 * (ei * di * di)) by (nonlinear_arith);
        match self {
            EasingType::Linear => ei * di * di,
            EasingType::SmoothStep => 3 * ei * ei * di - 2 * ei * ei * ei,
            EasingType::QuadIn => ei * ei * di,
            EasingType::QuadOut => 2 * ei * di * di - ei * ei * di,
        }
    }
}

proof fn lemma_eased_bounds(kind: EasingType, e: int, d: int)
    requires
        0 <= e <= d,
    ensures
        0 <= eased(kind, e, d) <= d * d * d,
        eased(kind, d, d) == d * d * d,
{
    assert(0 <= e * e * d <= d * d * d && 0 <= e * d * d <= d * d * d) by (nonlinear_arith)
        requires 0 <= e <= d;
    assert(0 <= 3 * e * e * d - 2 * e * e * e <= d * d * d) by (nonlinear_arith)
        requires 0 <= e <= d;
    assert(0 <= 2 * e * d * d - e * e * d <= d * d * d) by (nonlinear_arith)
        requires 0 <= e <= d;
    assert(3 * d * d * d - 2 * d * d * d == d * d * d) by (nonlinear_arith);
    assert(2 * d * d * d - d * d * d == d * d * d) by (nonlinear_arith);
}

/// A start target moving to an end target over `duration` milliseconds.
pub struct Transition {
    duration: u32,
    elapsed: u64,
    easing: EasingType,
    start_state: TransitionTarget,
    end_state: TransitionTarget,
    current_state: TransitionTarget,
}

pub open spec fn min(a: int, b: int) -> int {
    if a < b { a } else { b }
}

impl Transition {
    pub closed spec fn duration_ms(&self) -> int {
        self.duration as int
    }

    pub closed spec fn elapsed_ms(&self) -> int {
        self.elapsed as int
    }

    pub closed spec fn easing_kind(&self) -> EasingType {
        self.easing
    }

    pub closed spec fn start(&self) -> TargetView {
        self.start_state@
    }

    pub closed spec fn end(&self) -> TargetView {
        self.end_state@
    }

    pub closed spec fn current(&self) -> TargetView {
        self.current_state@
    }

    /// A positive duration, and targets that can be blended.
    pub open spec fn wf(&self) -> bool {
        &&& self.duration_ms() > 0
        &&& same_shape(self.start(), self.end())
    }

    /// The target reached after `elapsed` milliseconds: the start blended
    /// towards the end by the eased progress, progress being capped at 1.
    pub open spec fn target_at(&self, elapsed: int) -> TargetView {
        let d = self.duration_ms();
        blend_target(
            self.start(),
            self.end(),
            eased(self.easing_kind(), min(elapsed, d), d),
            d * d * d,
        )
    }

    /// A transition from `start_state` to `end_state` over `duration`
    /// milliseconds, at its start.
    pub fn initialize(
        easing: EasingType,
        duration: u32,
        start_state: TransitionTarget,
        end_state: TransitionTarget,
    ) -> (t: Self)
        requires
            duration > 0,
            same_shape(start_state@, end_state@),
        ensures
            t.wf(),
            t.duration_ms() == duration,
            t.elapsed_ms() == 0,
            t.easing_kind() == easing,
            t.start() == start_state@,
            t.end() == end_state@,
            t.current() == start_state@,
    {
        let current_state = start_state.duplicate();
        Transition { easing, duration, elapsed: 0, start_state, end_state, current_state }
    }

    /// Advances the clock by `delta_time` milliseconds and recomputes the
    /// current target. Once the duration is reached the current target is
    /// the end target, however often this is called again.
    pub fn step(&mut self, delta_time: u64)
        requires
            old(self).wf(),
            old(self).elapsed_ms() + delta_time <= u64::MAX,
        ensures
            final(self).wf(),
            final(self).elapsed_ms() == old(self).elapsed_ms() + delta_time,
            final(self).duration_ms() == old(self).duration_ms(),
            final(self).easing_kind() == old(self).easing_kind(),
            final(self).start() == old(self).start(),
            final(self).end() == old(self).end(),
            final(self).current() == final(self).target_at(final(self).elapsed_ms()),
            final(self).elapsed_ms() >= final(self).duration_ms() ==> final(self).current()
                == final(self).end(),
    {
        self.elapsed = self.elapsed + delta_time;
        let e: u32 = if self.elapsed < self.duration as u64 {
            self.elapsed as u32
        } else {
            self.duration
        };
        let d = self.duration;
        let num = self.easing.ease(e, d);
        assert(0 <= d as int * d as int <= 0xffff_ffff * 0xffff_ffff) by (nonlinear_arith)
            requires d <= 0xffff_ffff;
        assert(0 <= d as int * d as int * d as int <= max_den()) by (nonlinear_arith)
            requires d <= 0xffff_ffff;
        let den = d as i128 * d as i128 * d as i128;
        assert(den <= max_den()) by (nonlinear_arith)
            requires den == d as int * d as int * d as int, d <= 0xffff_ffff;
        assert(den > 0) by (nonlinear_arith)
            requires den == d as int * d as int * d as int, d > 0;
        self.current_state = interpolate(num, den, &self.start_state, &self.end_state);
        proof {
            if self.elapsed >= self.duration {
                lemma_target_at_end(*self);
            }
        }
    }

    /// Whether the elapsed time has reached the duration.
    pub fn is_finished(&self) -> (b: bool)
        ensures
            b == (self.elapsed_ms() >= self.duration_ms()),
    {
        self.elapsed >= self.duration as u64
    }

    /// Sets the elapsed time back to 0; the current target is kept until
    /// the next step.
    pub fn reset(&mut self)
        ensures
            final(self).elapsed_ms() == 0,
            final(self).duration_ms() == old(self).duration_ms(),
            final(self).easing_kind() == old(self).easing_kind(),
            final(self).start() == old(self).start(),
            final(self).end() == old(self).end(),
            final(self).current() == old(self).current(),
    {
        self.elapsed = 0;
    }

    /// Sets the elapsed time back to 0 and replaces both targets.
    pub fn reset_new(&mut self, new_start: TransitionTarget, new_end: TransitionTarget)
        requires
            same_shape(new_start@, new_end@),
        ensures
            final(self).elapsed_ms() == 0,
            final(self).duration_ms() == old(self).duration_ms(),
            final(self).easing_kind() == old(self).easing_kind(),
            final(self).start() == new_start@,
            final(self).end() == new_end@,
            final(self).current() == old(self).current(),
    {
        self.reset();
        self.start_state = new_start;
        self.end_state = new_end;
    }

    /// The current points, for a transition of point lists.
    pub fn get_current_points(&self) -> (r: &Vec<(i32, i32)>)
        requires
            self.current() is Points,
        ensures
            self.current() == TargetView::Points(pair_view(r@)),
        decreases 0nat,
    {
        match &self.current_state {
            TransitionTarget::Points { points } => points,
            TransitionTarget::Point { .. } => {
                proof {
                    assert(false);
                }
                self.get_current_points()
            },
        }
    }

    /// The start points, for a transition of point lists.
    pub fn get_start_points(&self) -> (r: &Vec<(i32, i32)>)
        requires
            self.start() is Points,
        ensures
            self.start() == TargetView::Points(pair_view(r@)),
        decreases 0nat,
    {
        match &self.start_state {
            TransitionTarget::Points { points } => points,
            TransitionTarget::Point { .. } => {
                proof {
                    assert(false);
                }
                self.get_start_points()
            },
        }
    }

    /// The end points, for a transition of point lists.
    pub fn get_end_points(&self) -> (r: &Vec<(i32, i32)>)
        requires
            self.end() is Points,
        ensures
            self.end() == TargetView::Points(pair_view(r@)),
        decreases 0nat,
    {
        match &self.end_state {
            TransitionTarget::Points { points } => points,
            TransitionTarget::Point { .. } => {
                proof {
                    assert(false);
                }
                self.get_end_points()
            },
        }
    }

    /// The current point, for a transition of single points.
    pub fn get_current_point(&self) -> (r: &(i32, i32))
        requires
            self.current() is Point,
        ensures
            self.current() == TargetView::Point((r.0 as int, r.1 as int)),
        decreases 0nat,
    {
        match &self.current_state {
            TransitionTarget::Point { point } => point,
            TransitionTarget::Points { .. } => {
                proof {
                    assert(false);
                }
                self.get_current_point()
            },
        }
    }
}

proof fn lemma_blend_full(a: int, b: int, den: int)
    requires
        den > 0,
    ensures
        blend(a, b, den, den) == b,
{
    assert(a * (den - den) + b * den == b * den) by (nonlinear_arith);
    if b >= 0 {
        assert(b * den >= 0) by (nonlinear_arith)
            requires b >= 0, den > 0;
        vstd::arithmetic::div_mod::lemma_div_by_multiple(b, den);
    } else {
        assert(-(b * den) == (-b) * den) by (nonlinear_arith);
        assert((-b) * den > 0) by (nonlinear_arith)
            requires b < 0, den > 0;
        vstd::arithmetic::div_mod::lemma_div_by_multiple(-b, den);
    }
}

/// Once the duration has elapsed, the target reached is the end target.
pub proof fn lemma_target_at_end(t: Transition)
    requires
        t.wf(),
        t.elapsed_ms() >= t.duration_ms(),
    ensures
        t.target_at(t.elapsed_ms()) == t.end(),
{
    let d = t.duration_ms();
    lemma_eased_bounds(t.easing_kind(), d, d);
    assert(d * d * d > 0) by (nonlinear_arith)
        requires d > 0;
    match (t.start(), t.end()) {
        (TargetView::Points(s), TargetView::Points(e)) => {
            let r = Seq::new(s.len(), |i: int| blend_point(s[i], e[i], d * d * d, d * d * d));
            assert forall|i: int| 0 <= i < r.len() implies r[i] == e[i] by {
                lemma_blend_full(s[i].0, e[i].0, d * d * d);
                lemma_blend_full(s[i].1, e[i].1, d * d * d);
            }
            assert(r =~= e);
        },
        (TargetView::Point(s), TargetView::Point(e)) => {
            lemma_blend_full(s.0, e.0, d * d * d);
            lemma_blend_full(s.1, e.1, d * d * d);
        },
        _ => {},
    }
}

} // verus!
