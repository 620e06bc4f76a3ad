//! Lines: segments clipped to the canvas (Liang-Barsky, in exact rational arithmetic), then
//! walked pixel by pixel with Bresenham's algorithm; open paths are strokes of consecutive
//! segments.

use vstd::prelude::*;
use crate::canvas::{
    Canvas, paints, lemma_rows_step, lemma_paint_nothing, lemma_paint_step, lemma_paint_same_set, lemma_paint_trans,
};
use crate::geometry::{Color, Point, max_int, min_int};

verus! {

/// `an / ad <= bn / bd`, for positive denominators.
pub open spec fn frac_le(an: int, ad: int, bn: int, bd: int) -> bool {
    an * bd <= bn * ad
}

/// The parameter interval `[t0, t1]` (as `t0 = t0n / t0d`, `t1 = t1n / t1d`) narrowed by the
/// constraint `p * t <= q`; `None` once the interval is empty.
pub open spec fn clip_step_spec(t: Option<(int, int, int, int)>, p: int, q: int) -> Option<(int, int, int, int)> {
    match t {
        None => None,
        Some((an, ad, bn, bd)) => if p == 0 {
            if q < 0 { None } else { t }
        } else if p < 0 {
            // the constraint is t >= (-q) / (-p)
            if !frac_le(-q, -p, bn, bd) {
                None
            } else if !frac_le(-q, -p, an, ad) {
                Some((-q, -p, bn, bd))
            } else {
                t
            }
        } else {
            // the constraint is t <= q / p
            if !frac_le(an, ad, q, p) {
                None
            } else if !frac_le(bn, bd, q, p) {
                Some((an, ad, q, p))
            } else {
                t
            }
        },
    }
}

/// The parameter interval of segment `(x0, y0) -> (x1, y1)` that lies in `[0, w) x [0, h)`:
/// `[0, 1]` cut by the four boundary constraints.
pub open spec fn clip_interval(x0: int, y0: int, x1: int, y1: int, w: int, h: int) -> Option<(int, int, int, int)> {
    let dx = x1 - x0;
    let dy = y1 - y0;
    let t = Some((0int, 1int, 1int, 1int));
    let t = clip_step_spec(t, -dx, x0);
    let t = clip_step_spec(t, dx, w - 1 - x0);
    let t = clip_step_spec(t, -dy, y0);
    clip_step_spec(t, dy, h - 1 - y0)
}

/// `n / d` rounded to the nearest integer, halves away from zero (`d > 0`).
pub open spec fn round_div(n: int, d: int) -> int {
    if n >= 0 {
        (2 * n + d) / (2 * d)
    } else {
        -((-2 * n + d) / (2 * d))
    }
}

/// The segment `(x0, y0) -> (x1, y1)` clipped to `[0, w) x [0, h)`: its endpoints at the ends
/// of the parameter interval, rounded to pixels; `None` when it misses the canvas.
pub open spec fn clip_spec(x0: int, y0: int, x1: int, y1: int, w: int, h: int) -> Option<(int, int, int, int)> {
    if w <= 0 || h <= 0 {
        None
    } else {
        match clip_interval(x0, y0, x1, y1, w, h) {
            None => None,
            Some((an, ad, bn, bd)) => if !frac_le(an, ad, bn, bd) {
                None
            } else {
                Some(
                    (
                        round_div(x0 * ad + an * (x1 - x0), ad),
                        round_div(y0 * ad + an * (y1 - y0), ad),
                        round_div(x0 * bd + bn * (x1 - x0), bd),
                        round_div(y0 * bd + bn * (y1 - y0), bd),
                    ),
                )
            },
        }
    }
}

/// Clipping leaves a segment that lies entirely on the canvas as it is.
pub proof fn law_clip_keeps_segment_inside(x0: int, y0: int, x1: int, y1: int, w: int, h: int)
    requires
        0 <= x0 < w,
        0 <= x1 < w,
        0 <= y0 < h,
        0 <= y1 < h,
    ensures
        clip_spec(x0, y0, x1, y1, w, h) == Some((x0, y0, x1, y1)),
{
    let full = Some((0int, 1int, 1int, 1int));
    assert(clip_step_spec(full, -(x1 - x0), x0) == full);
    assert(clip_step_spec(full, x1 - x0, w - 1 - x0) == full);
    assert(clip_step_spec(full, -(y1 - y0), y0) == full);
    assert(clip_step_spec(full, y1 - y0, h - 1 - y0) == full);
    assert(clip_interval(x0, y0, x1, y1, w, h) == full);
    assert(round_div(x0 * 1 + 0 * (x1 - x0), 1) == x0);
    assert(round_div(y0 * 1 + 0 * (y1 - y0), 1) == y0);
    assert(round_div(x0 * 1 + 1 * (x1 - x0), 1) == x1);
    assert(round_div(y0 * 1 + 1 * (y1 - y0), 1) == y1);
}

pub open spec fn abs(v: int) -> int {
    if v < 0 { -v } else { v }
}

/// Whether Bresenham's walk from `(x, y)` with error term `err` towards `(x1, y1)` visits
/// pixel `(px, py)` within `fuel` steps. `a = |x1 - x0|`, `b = |y1 - y0|`, `sx`/`sy` the step
/// directions.
pub open spec fn bres_visits(
    x: int,
    y: int,
    err: int,
    x1: int,
    y1: int,
    a: int,
    b: int,
    sx: int,
    sy: int,
    fuel: nat,
    px: int,
    py: int,
) -> bool
    decreases fuel,
{
    (px == x && py == y) || (fuel > 0 && !(x == x1 && y == y1) && {
        let e2 = 2 * err;
        let nx = if e2 >= -b { x + sx } else { x };
        let err1 = if e2 >= -b { err - b } else { err };
        let ny = if e2 <= a { y + sy } else { y };
        let err2 = if e2 <= a { err1 + a } else { err1 };
        bres_visits(nx, ny, err2, x1, y1, a, b, sx, sy, (fuel - 1) as nat, px, py)
    })
}

/// Whether the one-pixel-wide line from `(x0, y0)` to `(x1, y1)` covers `(px, py)`.
pub open spec fn bresenham(x0: int, y0: int, x1: int, y1: int, px: int, py: int) -> bool {
    let a = abs(x1 - x0);
    let b = abs(y1 - y0);
    let sx = if x0 < x1 { 1int } else { -1int };
    let sy = if y0 < y1 { 1int } else { -1int };
    bres_visits(x0, y0, a - b, x1, y1, a, b, sx, sy, (a + b) as nat, px, py)
}

/// Whether the line from `from` to `to`, clipped to a `w` x `h` canvas, covers `(px, py)`.
pub open spec fn line_covers(from: Point, to: Point, w: int, h: int, px: int, py: int) -> bool {
    match clip_spec(from.x as int, from.y as int, to.x as int, to.y as int, w, h) {
        None => false,
        Some((x0, y0, x1, y1)) => bresenham(x0, y0, x1, y1, px, py),
    }
}

/// Whether the open path through `points` covers `(px, py)`: one of its segments does.
pub open spec fn path_covers(points: Seq<Point>, w: int, h: int, px: int, py: int) -> bool {
    exists|i: int| 0 <= i < points.len() - 1 && #[trigger] line_covers(points[i], points[i + 1], w, h, px, py)
}

/// Bounds that keep every fraction of the clipping computation inside `i128`.
pub open spec fn frac_bounded(t: Option<(int, int, int, int)>) -> bool {
    t matches Some((an, ad, bn, bd)) ==> {
        &&& 0 < ad <= 0x4_0000_0000
        &&& 0 < bd <= 0x4_0000_0000
        &&& -0x4_0000_0000 <= an <= 0x4_0000_0000
        &&& -0x4_0000_0000 <= bn <= 0x4_0000_0000
    }
}

pub open spec fn opt_int(t: Option<(i128, i128, i128, i128)>) -> Option<(int, int, int, int)> {
    match t {
        None => None,
        Some((an, ad, bn, bd)) => Some((an as int, ad as int, bn as int, bd as int)),
    }
}

/// Products of two clipping quantities fit in `i128` with room to spare.
proof fn lemma_small_product(a: int, b: int)
    requires
        -0x4_0000_0000 <= a <= 0x4_0000_0000,
        -0x4_0000_0000 <= b <= 0x4_0000_0000,
    ensures
        -0x10_0000_0000_0000_0000 <= a * b <= 0x10_0000_0000_0000_0000,
{
    assert(-0x10_0000_0000_0000_0000 <= a * b <= 0x10_0000_0000_0000_0000) by (nonlinear_arith)
        requires
            -0x4_0000_0000 <= a <= 0x4_0000_0000,
            -0x4_0000_0000 <= b <= 0x4_0000_0000,
    ;
}

/// Narrows the interval `t` by the constraint `p * t <= q`.
fn clip_step(t: Option<(i128, i128, i128, i128)>, p: i128, q: i128) -> (r: Option<(i128, i128, i128, i128)>)
    requires
        frac_bounded(opt_int(t)),
        -0x2_0000_0000 <= p <= 0x2_0000_0000,
        -0x2_0000_0000 <= q <= 0x2_0000_0000,
    ensures
        opt_int(r) == clip_step_spec(opt_int(t), p as int, q as int),
        frac_bounded(opt_int(r)),
{
    match t {
        None => None,
        Some((an, ad, bn, bd)) => {
            proof {
                lemma_small_product(q as int, ad as int);
                lemma_small_product(q as int, bd as int);
                lemma_small_product(p as int, ad as int);
                lemma_small_product(p as int, bd as int);
                lemma_small_product(an as int, p as int);
                lemma_small_product(bn as int, p as int);
            }
            if p == 0 {
                if q < 0 { None } else { t }
            } else if p < 0 {
                let rn = -q;
                let rd = -p;
                proof {
                    lemma_small_product(rn as int, bd as int);
                    lemma_small_product(bn as int, rd as int);
                    lemma_small_product(rn as int, ad as int);
                    lemma_small_product(an as int, rd as int);
                }
                if rn * bd > bn * rd {
                    None
                } else if rn * ad > an * rd {
                    Some((rn, rd, bn, bd))
                } else {
                    t
                }
            } else {
                if q * ad < an * p {
                    None
                } else if q * bd < bn * p {
                    Some((an, ad, q, p))
                } else {
                    t
                }
            }
        },
    }
}

/// `n / d` rounded half away from zero, as `round_div`.
fn round_div_exec(n: i128, d: i128) -> (r: i64)
    requires
        0 < d <= 0x4_0000_0000,
        0 <= n <= 0x4_0000_0000 * d,
    ensures
        r == round_div(n as int, d as int),
        0 <= r <= 0x4_0000_0000,
{
    proof {
        lemma_round_bounds(n as int, d as int, 0x4_0000_0000);
    }
    ((2 * n + d) / (2 * d)) as i64
}

/// A nonnegative fraction bounded by `m` rounds to an integer in `[0, m]`.
proof fn lemma_round_bounds(n: int, d: int, m: int)
    requires
        0 < d,
        0 <= m,
        0 <= n <= m * d,
    ensures
        0 <= round_div(n, d) <= m,
{
    assert(0 <= (2 * n + d) / (2 * d)) by (nonlinear_arith)
        requires
            0 < d,
            0 <= n,
    ;
    assert((2 * n + d) / (2 * d) <= m) by (nonlinear_arith)
        requires
            0 < d,
            0 <= m,
            0 <= n <= m * d,
    {
        assert(2 * n + d < 2 * d * (m + 1));
        assert((2 * n + d) / (2 * d) < m + 1) by (nonlinear_arith)
            requires
                0 < d,
                0 <= 2 * n + d < 2 * d * (m + 1),
        ;
    }
}

/// Clips segment `(x0, y0) -> (x1, y1)` to `[0, w) x [0, h)` (Liang-Barsky), returning the
/// clipped endpoints rounded to pixels, or `None` when the segment misses the canvas. Exact
/// rational arithmetic: no rounding happens before the final endpoints.
fn liang_barsky_clip(x0: i64, y0: i64, x1: i64, y1: i64, w: i64, h: i64) -> (r: Option<(i64, i64, i64, i64)>)
    requires
        -0x8000_0000 <= x0 <= 0x7fff_ffff,
        -0x8000_0000 <= y0 <= 0x7fff_ffff,
        -0x8000_0000 <= x1 <= 0x7fff_ffff,
        -0x8000_0000 <= y1 <= 0x7fff_ffff,
        0 <= w <= 0xffff_ffff,
        0 <= h <= 0xffff_ffff,
    ensures
        r matches Some((a, b, c, d)) ==> Some((a as int, b as int, c as int, d as int)) == clip_spec(
            x0 as int,
            y0 as int,
            x1 as int,
            y1 as int,
            w as int,
            h as int,
        ),
        r is None <==> clip_spec(x0 as int, y0 as int, x1 as int, y1 as int, w as int, h as int) is None,
        r matches Some((a, b, c, d)) ==> 0 <= a < w && 0 <= b < h && 0 <= c < w && 0 <= d < h,
{
    if w <= 0 || h <= 0 {
        return None;
    }
    let dx = x1 as i128 - x0 as i128;
    let dy = y1 as i128 - y0 as i128;
    let t: Option<(i128, i128, i128, i128)> = Some((0, 1, 1, 1));
    let t1 = clip_step(t, -dx, x0 as i128);
    let t2 = clip_step(t1, dx, (w - 1 - x0) as i128);
    let t3 = clip_step(t2, -dy, y0 as i128);
    let t4 = clip_step(t3, dy, (h - 1 - y0) as i128);
    assert(opt_int(t4) == clip_interval(x0 as int, y0 as int, x1 as int, y1 as int, w as int, h as int));
    match t4 {
        None => None,
        Some((an, ad, bn, bd)) => {
            proof {
                lemma_small_product(an as int, bd as int);
                lemma_small_product(bn as int, ad as int);
            }
            if an * bd > bn * ad {
                return None;
            }
            proof {
                lemma_clip_interval_inside(x0 as int, y0 as int, x1 as int, y1 as int, w as int, h as int);
                lemma_small_product(x0 as int, ad as int);
                lemma_small_product(an as int, dx as int);
                lemma_small_product(y0 as int, ad as int);
                lemma_small_product(an as int, dy as int);
                lemma_small_product(x0 as int, bd as int);
                lemma_small_product(bn as int, dx as int);
                lemma_small_product(y0 as int, bd as int);
                lemma_small_product(bn as int, dy as int);
                lemma_le_mul_bound(w - 1, ad as int);
                lemma_le_mul_bound(h - 1, ad as int);
                lemma_le_mul_bound(w - 1, bd as int);
                lemma_le_mul_bound(h - 1, bd as int);
            }
            let cx0 = round_div_exec(x0 as i128 * ad + an * dx, ad);
            let cy0 = round_div_exec(y0 as i128 * ad + an * dy, ad);
            let cx1 = round_div_exec(x0 as i128 * bd + bn * dx, bd);
            let cy1 = round_div_exec(y0 as i128 * bd + bn * dy, bd);
            proof {
                lemma_round_bounds((x0 * ad + an * dx) as int, ad as int, w - 1);
                lemma_round_bounds((y0 * ad + an * dy) as int, ad as int, h - 1);
                lemma_round_bounds((x0 * bd + bn * dx) as int, bd as int, w - 1);
                lemma_round_bounds((y0 * bd + bn * dy) as int, bd as int, h - 1);
            }
            Some((cx0, cy0, cx1, cy1))
        },
    }
}

proof fn lemma_le_mul_bound(m: int, d: int)
    requires
        0 <= m <= 0xffff_ffff,
        0 < d,
    ensures
        m * d <= 0x4_0000_0000 * d,
{
    assert(m * d <= 0x4_0000_0000 * d) by (nonlinear_arith)
        requires
            0 <= m <= 0xffff_ffff,
            0 < d,
    ;
}

/// `a/b <= c/d <= e/f` implies `a/b <= e/f` (positive denominators).
pub proof fn lemma_frac_le_trans(a: int, b: int, c: int, d: int, e: int, f: int)
    requires
        b > 0,
        d > 0,
        f > 0,
        frac_le(a, b, c, d),
        frac_le(c, d, e, f),
    ensures
        frac_le(a, b, e, f),
{
    assert(a * d * f <= c * b * f) by (nonlinear_arith)
        requires
            a * d <= c * b,
            f > 0,
    ;
    assert(c * f * b <= e * d * b) by (nonlinear_arith)
        requires
            c * f <= e * d,
            b > 0,
    ;
    assert(a * f <= e * b) by (nonlinear_arith)
        requires
            a * d * f <= c * b * f,
            c * f * b <= e * d * b,
            d > 0,
    ;
}

/// What the clipping interval guarantees about a fraction `n / d` inside it: each of the
/// constraints processed so far holds, written as `p * n <= q * d`.
pub open spec fn interval_ok(t: Option<(int, int, int, int)>, cs: Seq<(int, int)>) -> bool {
    t matches Some((an, ad, bn, bd)) ==> {
        &&& 0 < ad
        &&& 0 < bd
        &&& frac_le(0, 1, an, ad)
        &&& frac_le(bn, bd, 1, 1)
        &&& frac_le(an, ad, bn, bd)
        &&& forall|k: int|
            0 <= k < cs.len() ==> {
                let (p, q) = #[trigger] cs[k];
                &&& p < 0 ==> frac_le(-q, -p, an, ad)
                &&& p > 0 ==> frac_le(bn, bd, q, p)
                &&& p == 0 ==> q >= 0
            }
    }
}

/// One clipping step keeps the interval consistent with all constraints seen so far.
proof fn lemma_clip_step_ok(t: Option<(int, int, int, int)>, cs: Seq<(int, int)>, p: int, q: int)
    requires
        interval_ok(t, cs),
    ensures
        interval_ok(clip_step_spec(t, p, q), cs.push((p, q))),
{
    let r = clip_step_spec(t, p, q);
    if let Some((an, ad, bn, bd)) = t {
        if let Some((an2, ad2, bn2, bd2)) = r {
            let cs2 = cs.push((p, q));
            if p < 0 {
                // the lower end moved up to -q / -p or stayed
                if !frac_le(-q, -p, an, ad) {
                    assert(frac_le(an, ad, -q, -p)) by (nonlinear_arith)
                        requires
                            !(-q * ad <= an * -p),
                    ;
                    lemma_frac_le_trans(0, 1, an, ad, -q, -p);
                    assert forall|k: int| 0 <= k < cs2.len() implies {
                        let (pp, qq) = #[trigger] cs2[k];
                        &&& pp < 0 ==> frac_le(-qq, -pp, an2, ad2)
                        &&& pp > 0 ==> frac_le(bn2, bd2, qq, pp)
                        &&& pp == 0 ==> qq >= 0
                    } by {
                        let (pp, qq) = cs2[k];
                        if k < cs.len() {
                            assert(cs2[k] == cs[k]);
                            if pp < 0 {
                                lemma_frac_le_trans(-qq, -pp, an, ad, -q, -p);
                            }
                        }
                    }
                } else {
                    assert forall|k: int| 0 <= k < cs2.len() implies {
                        let (pp, qq) = #[trigger] cs2[k];
                        &&& pp < 0 ==> frac_le(-qq, -pp, an2, ad2)
                        &&& pp > 0 ==> frac_le(bn2, bd2, qq, pp)
                        &&& pp == 0 ==> qq >= 0
                    } by {
                        if k < cs.len() {
                            assert(cs2[k] == cs[k]);
                        }
                    }
                }
            } else if p > 0 {
                if !frac_le(bn, bd, q, p) {
                    assert(frac_le(q, p, bn, bd)) by (nonlinear_arith)
                        requires
                            !(bn * p <= q * bd),
                    ;
                    lemma_frac_le_trans(q, p, bn, bd, 1, 1);
                    assert forall|k: int| 0 <= k < cs2.len() implies {
                        let (pp, qq) = #[trigger] cs2[k];
                        &&& pp < 0 ==> frac_le(-qq, -pp, an2, ad2)
                        &&& pp > 0 ==> frac_le(bn2, bd2, qq, pp)
                        &&& pp == 0 ==> qq >= 0
                    } by {
                        let (pp, qq) = cs2[k];
                        if k < cs.len() {
                            assert(cs2[k] == cs[k]);
                            if pp > 0 {
                                lemma_frac_le_trans(q, p, bn, bd, qq, pp);
                            }
                        }
                    }
                } else {
                    assert forall|k: int| 0 <= k < cs2.len() implies {
                        let (pp, qq) = #[trigger] cs2[k];
                        &&& pp < 0 ==> frac_le(-qq, -pp, an2, ad2)
                        &&& pp > 0 ==> frac_le(bn2, bd2, qq, pp)
                        &&& pp == 0 ==> qq >= 0
                    } by {
                        if k < cs.len() {
                            assert(cs2[k] == cs[k]);
                        }
                    }
                }
            } else {
                assert forall|k: int| 0 <= k < cs2.len() implies {
                    let (pp, qq) = #[trigger] cs2[k];
                    &&& pp < 0 ==> frac_le(-qq, -pp, an2, ad2)
                    &&& pp > 0 ==> frac_le(bn2, bd2, qq, pp)
                    &&& pp == 0 ==> qq >= 0
                } by {
                    if k < cs.len() {
                        assert(cs2[k] == cs[k]);
                    }
                }
            }
        }
    }
}

/// A satisfied constraint `p * t <= q` holds at both ends of the interval.
proof fn lemma_constraint_at_ends(an: int, ad: int, bn: int, bd: int, p: int, q: int)
    requires
        0 < ad,
        0 < bd,
        frac_le(an, ad, bn, bd),
        p < 0 ==> frac_le(-q, -p, an, ad),
        p > 0 ==> frac_le(bn, bd, q, p),
        p == 0 ==> q >= 0,
    ensures
        p * an <= q * ad,
        p * bn <= q * bd,
{
    if p < 0 {
        lemma_frac_le_trans(-q, -p, an, ad, bn, bd);
        assert(p * an <= q * ad) by (nonlinear_arith)
            requires
                -q * ad <= an * -p,
        ;
        assert(p * bn <= q * bd) by (nonlinear_arith)
            requires
                -q * bd <= bn * -p,
        ;
    } else if p > 0 {
        lemma_frac_le_trans(an, ad, bn, bd, q, p);
        assert(p * an <= q * ad) by (nonlinear_arith)
            requires
                an * p <= q * ad,
        ;
        assert(p * bn <= q * bd) by (nonlinear_arith)
            requires
                bn * p <= q * bd,
        ;
    } else {
        assert(p * an == 0 && p * bn == 0) by (nonlinear_arith)
            requires
                p == 0,
        ;
        assert(q * ad >= 0 && q * bd >= 0) by (nonlinear_arith)
            requires
                q >= 0,
                ad > 0,
                bd > 0,
        ;
    }
}

/// Both ends of a non-empty clipping interval map to points inside the canvas.
proof fn lemma_clip_interval_inside(x0: int, y0: int, x1: int, y1: int, w: int, h: int)
    requires
        clip_interval(x0, y0, x1, y1, w, h) matches Some((an, ad, bn, bd)) && frac_le(an, ad, bn, bd),
    ensures
        clip_interval(x0, y0, x1, y1, w, h) matches Some((an, ad, bn, bd)) && {
            &&& 0 <= x0 * ad + an * (x1 - x0) <= (w - 1) * ad
            &&& 0 <= y0 * ad + an * (y1 - y0) <= (h - 1) * ad
            &&& 0 <= x0 * bd + bn * (x1 - x0) <= (w - 1) * bd
            &&& 0 <= y0 * bd + bn * (y1 - y0) <= (h - 1) * bd
            &&& 0 <= an <= ad
            &&& 0 <= bn <= bd
        },
{
    let dx = x1 - x0;
    let dy = y1 - y0;
    let c1 = (-dx, x0);
    let c2 = (dx, w - 1 - x0);
    let c3 = (-dy, y0);
    let c4 = (dy, h - 1 - y0);
    let t0 = Some((0int, 1int, 1int, 1int));
    let cs0 = Seq::<(int, int)>::empty();
    assert(interval_ok(t0, cs0));
    lemma_clip_step_ok(t0, cs0, -dx, x0);
    let t1 = clip_step_spec(t0, -dx, x0);
    lemma_clip_step_ok(t1, cs0.push(c1), dx, w - 1 - x0);
    let t2 = clip_step_spec(t1, dx, w - 1 - x0);
    lemma_clip_step_ok(t2, cs0.push(c1).push(c2), -dy, y0);
    let t3 = clip_step_spec(t2, -dy, y0);
    lemma_clip_step_ok(t3, cs0.push(c1).push(c2).push(c3), dy, h - 1 - y0);
    let t4 = clip_step_spec(t3, dy, h - 1 - y0);
    let cs = cs0.push(c1).push(c2).push(c3).push(c4);
    let (an, ad, bn, bd) = t4.unwrap();
    assert(cs[0] == c1 && cs[1] == c2 && cs[2] == c3 && cs[3] == c4);
    lemma_constraint_at_ends(an, ad, bn, bd, -dx, x0);
    lemma_constraint_at_ends(an, ad, bn, bd, dx, w - 1 - x0);
    lemma_constraint_at_ends(an, ad, bn, bd, -dy, y0);
    lemma_constraint_at_ends(an, ad, bn, bd, dy, h - 1 - y0);
    assert(0 <= x0 * ad + an * dx <= (w - 1) * ad) by (nonlinear_arith)
        requires
            -dx * an <= x0 * ad,
            dx * an <= (w - 1 - x0) * ad,
    ;
    assert(0 <= y0 * ad + an * dy <= (h - 1) * ad) by (nonlinear_arith)
        requires
            -dy * an <= y0 * ad,
            dy * an <= (h - 1 - y0) * ad,
    ;
    assert(0 <= x0 * bd + bn * dx <= (w - 1) * bd) by (nonlinear_arith)
        requires
            -dx * bn <= x0 * bd,
            dx * bn <= (w - 1 - x0) * bd,
    ;
    assert(0 <= y0 * bd + bn * dy <= (h - 1) * bd) by (nonlinear_arith)
        requires
            -dy * bn <= y0 * bd,
            dy * bn <= (h - 1 - y0) * bd,
    ;
    assert(0 <= an <= ad && 0 <= bn <= bd) by (nonlinear_arith)
        requires
            0 < ad,
            0 < bd,
            0 * ad <= an * 1,
            bn * 1 <= 1 * bd,
            an * bd <= bn * ad,
    ;
}

/// A rounded nonnegative fraction between two integers stays between them.
proof fn lemma_round_between(n: int, d: int, lo: int, hi: int)
    requires
        0 < d,
        0 <= n,
        lo * d <= n <= hi * d,
    ensures
        lo <= round_div(n, d) <= hi,
{
    assert(0 <= hi) by (nonlinear_arith)
        requires
            0 < d,
            0 <= n <= hi * d,
    ;
    lemma_round_bounds(n, d, hi);
    if lo > 0 {
        let q = (2 * n + d) / (2 * d);
        vstd::arithmetic::div_mod::lemma_fundamental_div_mod(2 * n + d, 2 * d);
        vstd::arithmetic::div_mod::lemma_mod_bound(2 * n + d, 2 * d);
        let r = (2 * n + d) % (2 * d);
        assert(lo <= q) by (nonlinear_arith)
            requires
                2 * n + d == 2 * d * q + r,
                0 <= r < 2 * d,
                lo * d <= n,
                0 < d,
        ;
    }
}

/// A point `t = tn / td` of the segment `v0 -> v1`, with `0 <= t <= 1`, lies between its
/// ends: scaled by `td`, between `min(v0, v1) * td` and `max(v0, v1) * td`.
pub proof fn lemma_segment_point_between(v0: int, v1: int, tn: int, td: int)
    requires
        0 < td,
        0 <= tn <= td,
    ensures
        min_int(v0, v1) * td <= v0 * td + tn * (v1 - v0) <= max_int(v0, v1) * td,
{
    if v0 <= v1 {
        assert(v0 * td <= v0 * td + tn * (v1 - v0) <= v1 * td) by (nonlinear_arith)
            requires
                0 <= tn <= td,
                v0 <= v1,
        ;
    } else {
        assert(v1 * td <= v0 * td + tn * (v1 - v0) <= v0 * td) by (nonlinear_arith)
            requires
                0 <= tn <= td,
                v1 < v0,
        ;
    }
}

/// The clipped segment's ends lie within the bounding box of the original segment.
pub proof fn lemma_clip_within_segment(x0: int, y0: int, x1: int, y1: int, w: int, h: int)
    requires
        clip_spec(x0, y0, x1, y1, w, h) is Some,
    ensures
        clip_spec(x0, y0, x1, y1, w, h) matches Some((a, b, c, d)) && {
            &&& min_int(x0, x1) <= a <= max_int(x0, x1)
            &&& min_int(y0, y1) <= b <= max_int(y0, y1)
            &&& min_int(x0, x1) <= c <= max_int(x0, x1)
            &&& min_int(y0, y1) <= d <= max_int(y0, y1)
        },
{
    let (an, ad, bn, bd) = clip_interval(x0, y0, x1, y1, w, h).unwrap();
    lemma_clip_interval_inside(x0, y0, x1, y1, w, h);
    lemma_segment_point_between(x0, x1, an, ad);
    lemma_segment_point_between(y0, y1, an, ad);
    lemma_segment_point_between(x0, x1, bn, bd);
    lemma_segment_point_between(y0, y1, bn, bd);
    lemma_round_between(x0 * ad + an * (x1 - x0), ad, min_int(x0, x1), max_int(x0, x1));
    lemma_round_between(y0 * ad + an * (y1 - y0), ad, min_int(y0, y1), max_int(y0, y1));
    lemma_round_between(x0 * bd + bn * (x1 - x0), bd, min_int(x0, x1), max_int(x0, x1));
    lemma_round_between(y0 * bd + bn * (y1 - y0), bd, min_int(y0, y1), max_int(y0, y1));
}

/// Every pixel of Bresenham's walk, from any state it reaches, lies within the bounding box
/// of the walk's two ends.
proof fn lemma_bres_in_box(
    xs: int,
    ys: int,
    x: int,
    y: int,
    x1: int,
    y1: int,
    a: int,
    b: int,
    sx: int,
    sy: int,
    i: int,
    j: int,
    d: int,
    fuel: nat,
    px: int,
    py: int,
)
    requires
        a == abs(x1 - xs),
        b == abs(y1 - ys),
        sx == (if xs < x1 { 1int } else { -1int }),
        sy == (if ys < y1 { 1int } else { -1int }),
        0 <= i <= a,
        0 <= j <= b,
        (sx == 1 && x == xs + i) || (sx == -1 && x == xs - i),
        (sy == 1 && y == ys + j) || (sy == -1 && y == ys - j),
        d == a * j - b * i,
        bres_visits(x, y, a - b + d, x1, y1, a, b, sx, sy, fuel, px, py),
    ensures
        min_int(xs, x1) <= px <= max_int(xs, x1),
        min_int(ys, y1) <= py <= max_int(ys, y1),
    decreases fuel,
{
    if !(px == x && py == y) {
        lemma_bres_no_overshoot(a, b, i, j, d);
        let err = a - b + d;
        let e2 = 2 * err;
        let nx = if e2 >= -b { x + sx } else { x };
        let ni = if e2 >= -b { i + 1 } else { i };
        let nd1 = if e2 >= -b { d - b } else { d };
        let ny = if e2 <= a { y + sy } else { y };
        let nj = if e2 <= a { j + 1 } else { j };
        let nd = if e2 <= a { nd1 + a } else { nd1 };
        assert(x == x1 <==> i == a);
        assert(y == y1 <==> j == b);
        assert(b * (i + 1) == b * i + b) by (nonlinear_arith);
        assert(a * (j + 1) == a * j + a) by (nonlinear_arith);
        assert(nd == a * nj - b * ni);
        lemma_bres_in_box(xs, ys, nx, ny, x1, y1, a, b, sx, sy, ni, nj, nd, (fuel - 1) as nat, px, py);
    }
}

/// A pixel of a line lies within the bounding box of the line's two ends.
pub proof fn lemma_line_within_ends(from: Point, to: Point, w: int, h: int, px: int, py: int)
    requires
        line_covers(from, to, w, h, px, py),
    ensures
        min_int(from.x as int, to.x as int) <= px <= max_int(from.x as int, to.x as int),
        min_int(from.y as int, to.y as int) <= py <= max_int(from.y as int, to.y as int),
{
    let (x0, y0, x1, y1) = clip_spec(from.x as int, from.y as int, to.x as int, to.y as int, w, h).unwrap();
    lemma_clip_within_segment(from.x as int, from.y as int, to.x as int, to.y as int, w, h);
    lemma_bres_in_box(x0, y0, x0, y0, x1, y1, abs(x1 - x0), abs(y1 - y0), if x0 < x1 { 1int } else { -1int },
        if y0 < y1 { 1int } else { -1int }, 0, 0, 0, (abs(x1 - x0) + abs(y1 - y0)) as nat, px, py);
}

/// In Bresenham's walk, the error term never lets a coordinate overshoot its endpoint.
proof fn lemma_bres_no_overshoot(a: int, b: int, i: int, j: int, d: int)
    requires
        0 <= i <= a,
        0 <= j <= b,
        d == a * j - b * i,
    ensures
        i == a && j < b ==> !(2 * (a - b + d) >= -b),
        j == b && i < a ==> !(2 * (a - b + d) <= a),
{
    if i == a && j < b {
        assert(a * (j - b + 1) <= 0) by (nonlinear_arith)
            requires
                0 <= a,
                j - b + 1 <= 0,
        ;
        assert(a * j - b * a == a * (j - b + 1) - a) by (nonlinear_arith);
    }
    if j == b && i < a {
        assert(b * (a - i - 1) >= 0) by (nonlinear_arith)
            requires
                0 <= b,
                a - i - 1 >= 0,
        ;
        assert(a * b - b * i == b * (a - i - 1) + b) by (nonlinear_arith);
    }
}

impl Canvas {
    /// Draws the one-pixel-wide line from `from` to `to` (Bresenham, no anti-aliasing). The
    /// segment is clipped to the canvas first, so only pixels that can land on the canvas are
    /// ever walked.
    pub(crate) fn stroke_line(&mut self, from: Point, to: Point, color: Color)
        requires
            old(self).wf(),
        ensures
            final(self).wf(),
            paints(old(self)@, final(self)@, color,
                |px: int, py: int| line_covers(from, to, old(self)@.width as int, old(self)@.height as int, px, py)),
            final(self)@.next_version <= old(self)@.next_version + old(self)@.width + old(self)@.height,
    {
        let ghost c0 = self@;
        let ghost w = c0.width as int;
        let ghost h = c0.height as int;
        let ghost total = |px: int, py: int| line_covers(from, to, w, h, px, py);
        let canvas_w = self.width() as i64;
        let canvas_h = self.height() as i64;
        let clipped = liang_barsky_clip(from.x as i64, from.y as i64, to.x as i64, to.y as i64, canvas_w, canvas_h);
        let (mut x0, mut y0, x1, y1) = match clipped {
            None => {
                proof {
                    lemma_paint_nothing(c0, color);
                    lemma_paint_same_set(c0, c0, color, |px: int, py: int| false, total);
                }
                return;
            },
            Some(v) => v,
        };
        let dx = if x1 >= x0 { x1 - x0 } else { x0 - x1 };
        let dy = -(if y1 >= y0 { y1 - y0 } else { y0 - y1 });
        let sx: i64 = if x0 < x1 { 1 } else { -1 };
        let sy: i64 = if y0 < y1 { 1 } else { -1 };
        let mut err = dx + dy;
        let ghost a = dx as int;
        let ghost b = -dy as int;
        let ghost xs = x0 as int;
        let ghost ys = y0 as int;
        let ghost mut i: int = 0;
        let ghost mut j: int = 0;
        let ghost mut d: int = 0;
        let ghost mut fuel: nat = (a + b) as nat;
        let ghost mut done = |px: int, py: int| false;
        proof {
            lemma_paint_nothing(c0, color);
        }
        loop
            invariant_except_break
                c0.wf(),
                self.wf(),
                self@.width == c0.width,
                self@.height == c0.height,
                w == c0.width,
                h == c0.height,
                0 <= xs < w,
                0 <= ys < h,
                0 <= x1 < w,
                0 <= y1 < h,
                total == (|px: int, py: int| line_covers(from, to, w, h, px, py)),
                a == dx,
                b == -dy,
                a == abs(x1 - xs),
                b == abs(y1 - ys),
                sx == (if xs < x1 { 1int } else { -1int }),
                sy == (if ys < y1 { 1int } else { -1int }),
                0 <= i <= a,
                0 <= j <= b,
                (sx == 1 && x0 == xs + i) || (sx == -1 && x0 == xs - i),
                (sy == 1 && y0 == ys + j) || (sy == -1 && y0 == ys - j),
                d == a * j - b * i,
                err == a - b + d,
                -b - 2 * a <= 2 * d <= 2 * b + a,
                fuel >= (a - i) + (b - j),
                self@.next_version <= c0.next_version + i + j,
                paints(c0, self@, color, done),
                forall|px: int, py: int|
                    #[trigger] total(px, py) <==> (done(px, py) || bres_visits(
                        x0 as int,
                        y0 as int,
                        err as int,
                        x1 as int,
                        y1 as int,
                        a,
                        b,
                        sx as int,
                        sy as int,
                        fuel,
                        px,
                        py,
                    )),
            ensures
                c0.wf(),
                self.wf(),
                paints(c0, self@, color, total),
                self@.next_version <= c0.next_version + w + h,
            decreases (a - i) + (b - j),
        {
            proof {
                assert(0 <= x0 < w && 0 <= y0 < h);
            }
            let ghost before = self@;
            if x0 >= 0 && y0 >= 0 {
                self.set_pixel(x0 as u32, y0 as u32, color);
            }
            proof {
                lemma_paint_step(c0, before, self@, color, done, x0 as u32, y0 as u32);
                done = |px: int, py: int| done(px, py) || (px == x0 as u32 && py == y0 as u32);
            }
            if x0 == x1 && y0 == y1 {
                proof {
                    assert forall|px: int, py: int| c0.in_bounds(px, py) implies (done(px, py) <==> total(px, py)) by {
                        assert(total(px, py) <==> (done(px, py) || bres_visits(x0 as int, y0 as int, err as int, x1 as int, y1 as int, a, b, sx as int, sy as int, fuel, px, py)));
                    }
                    lemma_paint_same_set(c0, self@, color, done, total);
                }
                break;
            }
            proof {
                lemma_bres_no_overshoot(a, b, i, j, d);
                assert(x0 == x1 <==> i == a);
                assert(y0 == y1 <==> j == b);
            }
            let ghost (ox, oy, oerr, ofuel) = (x0 as int, y0 as int, err as int, fuel);
            let e2 = 2 * err;
            if e2 >= dy {
                err += dy;
                x0 += sx;
                proof {
                    assert(b * (i + 1) == b * i + b) by (nonlinear_arith);
                    d = d - b;
                    i = i + 1;
                }
            }
            if e2 <= dx {
                err += dx;
                y0 += sy;
                proof {
                    assert(a * (j + 1) == a * j + a) by (nonlinear_arith);
                    d = d + a;
                    j = j + 1;
                }
            }
            proof {
                fuel = (ofuel - 1) as nat;
                assert forall|px: int, py: int| #[trigger] total(px, py) <==> (done(px, py) || bres_visits(
                    x0 as int, y0 as int, err as int, x1 as int, y1 as int, a, b, sx as int, sy as int, fuel, px, py)) by {
                    assert(bres_visits(ox, oy, oerr, x1 as int, y1 as int, a, b, sx as int, sy as int, ofuel, px, py)
                        == ((px == ox && py == oy) || bres_visits(x0 as int, y0 as int, err as int, x1 as int, y1 as int, a, b, sx as int, sy as int, fuel, px, py)));
                }
            }
        }
    }

    /// Strokes an open path as connected segments; no closing segment is drawn.
    pub(crate) fn stroke_path(&mut self, points: &[Point], color: Color)
        requires
            old(self).wf(),
        ensures
            final(self).wf(),
            paints(old(self)@, final(self)@, color,
                |px: int, py: int| path_covers(points@, old(self)@.width as int, old(self)@.height as int, px, py)),
            final(self)@.next_version <= old(self)@.next_version + points@.len() * (old(self)@.width + old(self)@.height),
    {
        let ghost c0 = self@;
        let ghost w = c0.width as int;
        let ghost h = c0.height as int;
        let n = points.len();
        proof {
            lemma_paint_nothing(c0, color);
            lemma_paint_same_set(c0, c0, color, |px: int, py: int| false,
                |px: int, py: int| exists|k: int| 0 <= k < 0 && #[trigger] line_covers(points@[k], points@[k + 1], w, h, px, py));
        }
        let mut i: usize = 0;
        while i + 1 < n
            invariant
                c0.wf(),
                self.wf(),
                self@.width == c0.width,
                self@.height == c0.height,
                w == c0.width,
                h == c0.height,
                n == points@.len(),
                i < n || i == 0,
                self@.next_version <= c0.next_version + (w + h) * i,
                paints(c0, self@, color,
                    |px: int, py: int| exists|k: int| 0 <= k < i && #[trigger] line_covers(points@[k], points@[k + 1], w, h, px, py)),
            decreases n - i,
        {
            let ghost mid = self@;
            self.stroke_line(points[i], points[i + 1], color);
            proof {
                let before = |px: int, py: int| exists|k: int| 0 <= k < i && #[trigger] line_covers(points@[k], points@[k + 1], w, h, px, py);
                let seg = |px: int, py: int| line_covers(points@[i as int], points@[i + 1], w, h, px, py);
                lemma_paint_trans(c0, mid, self@, color, before, seg);
                assert forall|px: int, py: int| c0.in_bounds(px, py) implies ((before(px, py) || seg(px, py)) <==> exists|k: int|
                    0 <= k < i + 1 && #[trigger] line_covers(points@[k], points@[k + 1], w, h, px, py)) by {
                    if seg(px, py) {
                        assert(line_covers(points@[i as int], points@[i + 1], w, h, px, py));
                    }
                    if exists|k: int| 0 <= k < i + 1 && #[trigger] line_covers(points@[k], points@[k + 1], w, h, px, py) {
                        let k = choose|k: int| 0 <= k < i + 1 && #[trigger] line_covers(points@[k], points@[k + 1], w, h, px, py);
                        if k < i {
                            assert(before(px, py));
                        }
                    }
                }
                lemma_paint_same_set(c0, self@, color, |px: int, py: int| before(px, py) || seg(px, py),
                    |px: int, py: int| exists|k: int| 0 <= k < i + 1 && #[trigger] line_covers(points@[k], points@[k + 1], w, h, px, py));
                lemma_rows_step(w + h, i as int);
            }
            i += 1;
        }
        proof {
            assert forall|px: int, py: int| c0.in_bounds(px, py) implies ((exists|k: int| 0 <= k < i && #[trigger] line_covers(points@[k], points@[k + 1], w, h, px, py))
                <==> path_covers(points@, w, h, px, py)) by {
                if path_covers(points@, w, h, px, py) {
                    let k = choose|k: int| 0 <= k < points@.len() - 1 && #[trigger] line_covers(points@[k], points@[k + 1], w, h, px, py);
                    assert(0 <= k < i);
                }
            }
            lemma_paint_same_set(c0, self@, color,
                |px: int, py: int| exists|k: int| 0 <= k < i && #[trigger] line_covers(points@[k], points@[k + 1], w, h, px, py),
                |px: int, py: int| path_covers(points@, w, h, px, py));
            assert((w + h) * i <= n * (w + h)) by (nonlinear_arith)
                requires
                    0 <= i <= n,
                    0 <= w + h,
            ;
        }
    }
}

} // verus!
