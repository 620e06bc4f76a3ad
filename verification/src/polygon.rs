//! Closed paths: scanline polygon fill with the even-odd rule.
//!
//! Each scanline is sampled through pixel centers (`y + 1/2`), so no vertex ever lies on it.
//! Every edge crossing the scanline contributes one crossing; a pixel is filled when an odd
//! number of crossings lie at or left of its center. All crossings are exact fractions.

use vstd::prelude::*;
use crate::canvas::{Canvas, paints, area, lemma_rows_step, lemma_paint_nothing, lemma_paint_same_set};
use crate::geometry::{Color, Point, max_int, min_int};
use crate::line::{frac_le, lemma_frac_le_trans, lemma_segment_point_between};
use crate::grid::lemma_mul_le;

verus! {

/// Whether the edge `p1 -> p2` crosses the scanline through the pixel centers of row `y`.
pub open spec fn edge_crosses(p1: Point, p2: Point, y: int) -> bool {
    (p1.y <= y) != (p2.y <= y)
}

/// Where edge `p1 -> p2` crosses the scanline of row `y`, as a fraction
/// `(numerator, denominator)` with a positive denominator.
pub open spec fn crossing(p1: Point, p2: Point, y: int) -> (int, int) {
    let d = 2 * (p2.y - p1.y);
    let n = p1.x * d + (2 * y + 1 - 2 * p1.y) * (p2.x - p1.x);
    if d < 0 { (-n, -d) } else { (n, d) }
}

/// The fraction `c` lies at or left of the center of column `x`.
pub open spec fn left_of_center(n: int, d: int, x: int) -> bool {
    2 * n <= (2 * x + 1) * d
}

/// The `k`-th edge of the closed polygon: from `points[k]` to the next point, wrapping.
pub open spec fn edge_from(points: Seq<Point>, k: int) -> Point {
    points[k]
}

pub open spec fn edge_to(points: Seq<Point>, k: int) -> Point {
    points[(k + 1) % (points.len() as int)]
}

/// How many of the first `k` edges cross row `y`'s scanline at or left of the center of
/// column `x`.
pub open spec fn crossings_left(points: Seq<Point>, y: int, x: int, k: int) -> nat
    decreases k,
{
    if k <= 0 {
        0
    } else {
        let p1 = edge_from(points, k - 1);
        let p2 = edge_to(points, k - 1);
        let c = crossing(p1, p2, y);
        crossings_left(points, y, x, k - 1) + (if edge_crosses(p1, p2, y) && left_of_center(c.0, c.1, x) {
            1nat
        } else {
            0nat
        })
    }
}

/// How many of the first `k` edges cross row `y`'s scanline at all.
pub open spec fn crossing_count(points: Seq<Point>, y: int, k: int) -> nat
    decreases k,
{
    if k <= 0 {
        0
    } else {
        crossing_count(points, y, k - 1) + (if edge_crosses(edge_from(points, k - 1), edge_to(points, k - 1), y) {
            1nat
        } else {
            0nat
        })
    }
}

/// The even-odd rule: pixel `(x, y)` lies inside the closed polygon through `points` when an
/// odd number of its edges cross the row's scanline at or left of the pixel's center.
pub open spec fn in_polygon(points: Seq<Point>, x: int, y: int) -> bool {
    points.len() >= 3 && crossings_left(points, y, x, points.len() as int) % 2 == 1
}

/// How many fractions of `s` lie at or left of the center of column `x`.
pub open spec fn count_left(s: Seq<(i128, i128)>, x: int) -> nat
    decreases s.len(),
{
    if s.len() == 0 {
        0
    } else {
        count_left(s.drop_last(), x) + (if left_of_center(s.last().0 as int, s.last().1 as int, x) {
            1nat
        } else {
            0nat
        })
    }
}

/// `s` is sorted by value, with positive, bounded numerators and denominators.
pub open spec fn sorted_fracs(s: Seq<(i128, i128)>) -> bool {
    &&& forall|i: int| 0 <= i < s.len() ==> 0 < #[trigger] s[i].1 <= 0x8_0000_0000 && -0x80_0000_0000_0000_0000
        <= s[i].0 <= 0x80_0000_0000_0000_0000
    &&& forall|i: int, j: int|
        0 <= i < j < s.len() ==> frac_le(#[trigger] s[i].0 as int, s[i].1 as int, #[trigger] s[j].0 as int, s[j].1 as int)
}

proof fn lemma_count_left_le_len(s: Seq<(i128, i128)>, x: int)
    ensures
        count_left(s, x) <= s.len(),
    decreases s.len(),
{
    if s.len() > 0 {
        lemma_count_left_le_len(s.drop_last(), x);
    }
}

/// Counting is additive over concatenation.
proof fn lemma_count_left_concat(a: Seq<(i128, i128)>, b: Seq<(i128, i128)>, x: int)
    ensures
        count_left(a + b, x) == count_left(a, x) + count_left(b, x),
    decreases b.len(),
{
    if b.len() == 0 {
        assert(a + b =~= a);
    } else {
        lemma_count_left_concat(a, b.drop_last(), x);
        assert((a + b).drop_last() =~= a + b.drop_last());
    }
}

/// Inserting one fraction adds one to the count exactly when it lies left of the center.
proof fn lemma_count_left_insert(s: Seq<(i128, i128)>, k: int, c: (i128, i128), x: int)
    requires
        0 <= k <= s.len(),
    ensures
        count_left(s.insert(k, c), x) == count_left(s, x) + (if left_of_center(c.0 as int, c.1 as int, x) {
            1nat
        } else {
            0nat
        }),
{
    let a = s.take(k);
    let b = s.skip(k);
    assert(s =~= a + b);
    assert(s.insert(k, c) =~= (a + seq![c]) + b);
    lemma_count_left_concat(a, b, x);
    lemma_count_left_concat(a + seq![c], b, x);
    lemma_count_left_concat(a, seq![c], x);
    assert(seq![c].drop_last() =~= Seq::<(i128, i128)>::empty());
    assert(count_left(Seq::<(i128, i128)>::empty(), x) == 0);
    assert(seq![c].last() == c);
    assert(count_left(seq![c], x) == count_left(seq![c].drop_last(), x) + (if left_of_center(c.0 as int, c.1 as int, x) {
        1nat
    } else {
        0nat
    }));
}

/// In a sorted sequence the fractions left of a center form a prefix, of length
/// `count_left`.
proof fn lemma_sorted_prefix(s: Seq<(i128, i128)>, x: int)
    requires
        sorted_fracs(s),
    ensures
        forall|i: int| 0 <= i < s.len() ==> (left_of_center(#[trigger] s[i].0 as int, s[i].1 as int, x) <==> i < count_left(s, x)),
    decreases s.len(),
{
    if s.len() > 0 {
        let t = s.drop_last();
        assert(sorted_fracs(t)) by {
            assert forall|i: int| 0 <= i < t.len() implies 0 < #[trigger] t[i].1 <= 0x8_0000_0000 && -0x80_0000_0000_0000_0000
                <= t[i].0 <= 0x80_0000_0000_0000_0000 by {
                assert(t[i] == s[i]);
            }
            assert forall|i: int, j: int| 0 <= i < j < t.len() implies frac_le(#[trigger] t[i].0 as int, t[i].1 as int, #[trigger] t[j].0 as int, t[j].1 as int) by {
                assert(t[i] == s[i] && t[j] == s[j]);
            }
        }
        lemma_sorted_prefix(t, x);
        lemma_count_left_le_len(t, x);
        let last = s.len() - 1;
        assert(0 < s[last].1);
        if left_of_center(s[last].0 as int, s[last].1 as int, x) {
            assert forall|i: int| 0 <= i < s.len() implies left_of_center(#[trigger] s[i].0 as int, s[i].1 as int, x) by {
                if i < last {
                    assert(0 < s[i].1);
                    lemma_frac_le_trans(s[i].0 as int, s[i].1 as int, s[last].0 as int, s[last].1 as int, 2 * x + 1, 2);
                }
            }
            if t.len() > 0 {
                assert(t[t.len() - 1] == s[t.len() - 1]);
                assert(left_of_center(s[t.len() - 1].0 as int, s[t.len() - 1].1 as int, x));
            }
        }
        assert forall|i: int| 0 <= i < s.len() implies (left_of_center(#[trigger] s[i].0 as int, s[i].1 as int, x) <==> i < count_left(s, x)) by {
            if i < last {
                assert(t[i] == s[i]);
            }
        }
    }
}

/// Filling between successive pairs of a sorted, even-length sequence of crossings paints
/// exactly the columns with an odd number of crossings at or left of their center.
proof fn lemma_pairs_are_odd_counts(s: Seq<(i128, i128)>, x: int)
    requires
        sorted_fracs(s),
        s.len() % 2 == 0,
    ensures
        (exists|k: int|
            0 <= k < s.len() / 2 && left_of_center(#[trigger] s[2 * k].0 as int, s[2 * k].1 as int, x) && !left_of_center(
                s[2 * k + 1].0 as int,
                s[2 * k + 1].1 as int,
                x,
            )) <==> count_left(s, x) % 2 == 1,
{
    lemma_sorted_prefix(s, x);
    lemma_count_left_le_len(s, x);
    let c = count_left(s, x) as int;
    if c % 2 == 1 {
        let k = (c - 1) / 2;
        assert(2 * k == c - 1);
        assert(c < s.len());
        assert(left_of_center(s[2 * k].0 as int, s[2 * k].1 as int, x));
    }
    if exists|k: int|
        0 <= k < s.len() / 2 && left_of_center(#[trigger] s[2 * k].0 as int, s[2 * k].1 as int, x) && !left_of_center(
            s[2 * k + 1].0 as int,
            s[2 * k + 1].1 as int,
            x,
        ) {
        let k = choose|k: int|
            0 <= k < s.len() / 2 && left_of_center(#[trigger] s[2 * k].0 as int, s[2 * k].1 as int, x) && !left_of_center(
                s[2 * k + 1].0 as int,
                s[2 * k + 1].1 as int,
                x,
            );
        assert(2 * k < c);
        assert(!(2 * k + 1 < c));
    }
}

/// Around a closed polygon the number of scanline crossings is even.
proof fn lemma_crossing_count_even(points: Seq<Point>, y: int)
    requires
        points.len() >= 1,
    ensures
        crossing_count(points, y, points.len() as int) % 2 == 0,
{
    let n = points.len() as int;
    lemma_crossing_parity(points, y, n - 1);
    assert(edge_from(points, n - 1) == points[n - 1]);
    assert(n % n == 0) by (nonlinear_arith)
        requires
            n >= 1,
    ;
    assert(edge_to(points, n - 1) == points[0]);
}

/// The parity of the crossings over the first `k` edges records whether the path so far
/// ended on the other side of the scanline from where it started.
proof fn lemma_crossing_parity(points: Seq<Point>, y: int, k: int)
    requires
        0 <= k < points.len(),
    ensures
        crossing_count(points, y, k) % 2 == (if (points[0].y <= y) != (points[k].y <= y) { 1int } else { 0int }),
    decreases k,
{
    if k > 0 {
        lemma_crossing_parity(points, y, k - 1);
        let n = points.len() as int;
        assert(k % n == k) by (nonlinear_arith)
            requires
                0 <= k < n,
        ;
        assert(edge_to(points, k - 1) == points[k]);
    }
}

/// Rows entirely above or below every vertex have no crossings.
proof fn lemma_no_crossings_outside(points: Seq<Point>, y: int, x: int, k: int)
    requires
        0 <= k <= points.len(),
        points.len() >= 1,
        (forall|i: int| 0 <= i < points.len() ==> y < #[trigger] points[i].y) || (forall|i: int|
            0 <= i < points.len() ==> #[trigger] points[i].y <= y),
    ensures
        crossings_left(points, y, x, k) == 0,
    decreases k,
{
    if k > 0 {
        lemma_no_crossings_outside(points, y, x, k - 1);
        let n = points.len() as int;
        let j = k % n;
        assert(0 <= j < n) by (nonlinear_arith)
            requires
                n >= 1,
                j == k % n,
        ;
        assert(points[k - 1].y <= y <==> points[j].y <= y);
    }
}

/// Where an edge crosses a scanline lies between the edge's ends.
proof fn lemma_crossing_between(p1: Point, p2: Point, y: int)
    requires
        edge_crosses(p1, p2, y),
    ensures
        crossing(p1, p2, y).1 > 0,
        min_int(p1.x as int, p2.x as int) * crossing(p1, p2, y).1 <= crossing(p1, p2, y).0,
        crossing(p1, p2, y).0 <= max_int(p1.x as int, p2.x as int) * crossing(p1, p2, y).1,
{
    let d = 2 * (p2.y - p1.y);
    let tn = 2 * y + 1 - 2 * p1.y;
    let dx = p2.x - p1.x;
    if p1.y <= y {
        lemma_segment_point_between(p1.x as int, p2.x as int, tn, d);
    } else {
        assert(-(p1.x * d + tn * dx) == p1.x * (-d) + (-tn) * dx) by (nonlinear_arith);
        assert((-min_int(p1.x as int, p2.x as int)) * d == min_int(p1.x as int, p2.x as int) * (-d)) by (nonlinear_arith);
        lemma_segment_point_between(p1.x as int, p2.x as int, -tn, -d);
    }
}

/// A vertical edge crosses every scanline it spans at its own column: the crossing is left of
/// the center of column `x` exactly when that column is at most `x`.
pub proof fn lemma_vertical_crossing(p1: Point, p2: Point, y: int, x: int)
    requires
        p1.x == p2.x,
        edge_crosses(p1, p2, y),
    ensures
        left_of_center(crossing(p1, p2, y).0, crossing(p1, p2, y).1, x) <==> p1.x <= x,
{
    let d = 2 * (p2.y - p1.y);
    let t = 2 * y + 1 - 2 * p1.y;
    assert(t * (p2.x - p1.x) == 0) by (nonlinear_arith)
        requires
            p2.x == p1.x,
    ;
    let (cn, cd) = crossing(p1, p2, y);
    assert(cd > 0);
    if d < 0 {
        assert(-(p1.x * d) == p1.x * (-d)) by (nonlinear_arith);
    }
    assert(cn == p1.x * cd);
    assert((2 * cn <= (2 * x + 1) * cd) <==> p1.x <= x) by (nonlinear_arith)
        requires
            cd > 0,
            cn == p1.x * cd,
    ;
}

/// When every vertex lies right of column `x`, no crossing is left of its center; when every
/// vertex lies at or left of it, every crossing is.
proof fn lemma_crossings_left_extremes(points: Seq<Point>, y: int, x: int, k: int)
    requires
        0 <= k <= points.len(),
        points.len() >= 1,
    ensures
        (forall|i: int| 0 <= i < points.len() ==> x < #[trigger] points[i].x) ==> crossings_left(points, y, x, k) == 0,
        (forall|i: int| 0 <= i < points.len() ==> #[trigger] points[i].x <= x) ==> crossings_left(points, y, x, k)
            == crossing_count(points, y, k),
    decreases k,
{
    if k > 0 {
        lemma_crossings_left_extremes(points, y, x, k - 1);
        let n = points.len() as int;
        let j = k % n;
        assert(0 <= j < n) by (nonlinear_arith)
            requires
                n >= 1,
                j == k % n,
        ;
        let p1 = edge_from(points, k - 1);
        let p2 = edge_to(points, k - 1);
        if edge_crosses(p1, p2, y) {
            lemma_crossing_between(p1, p2, y);
            let (cn, cd) = crossing(p1, p2, y);
            if forall|i: int| 0 <= i < points.len() ==> x < #[trigger] points[i].x {
                assert(x < points[k - 1].x && x < points[j].x);
                let m = min_int(p1.x as int, p2.x as int);
                assert((x + 1) * cd <= m * cd) by (nonlinear_arith)
                    requires
                        cd > 0,
                        x + 1 <= m,
                ;
                assert(!left_of_center(cn, cd, x)) by (nonlinear_arith)
                    requires
                        cd > 0,
                        (x + 1) * cd <= min_int(p1.x as int, p2.x as int) * cd,
                        min_int(p1.x as int, p2.x as int) * cd <= cn,
                {
                }
            }
            if forall|i: int| 0 <= i < points.len() ==> #[trigger] points[i].x <= x {
                assert(points[k - 1].x <= x && points[j].x <= x);
                let m = max_int(p1.x as int, p2.x as int);
                assert(m * cd <= x * cd) by (nonlinear_arith)
                    requires
                        cd > 0,
                        m <= x,
                ;
                assert(left_of_center(cn, cd, x)) by (nonlinear_arith)
                    requires
                        cd > 0,
                        max_int(p1.x as int, p2.x as int) * cd <= x * cd,
                        cn <= max_int(p1.x as int, p2.x as int) * cd,
                {
                }
            }
        }
    }
}

/// A pixel inside a polygon lies within the vertices' bounding box.
pub proof fn lemma_polygon_within_vertices(points: Seq<Point>, x: int, y: int)
    requires
        in_polygon(points, x, y),
    ensures
        exists|i: int| 0 <= i < points.len() && #[trigger] points[i].x <= x,
        exists|i: int| 0 <= i < points.len() && x < #[trigger] points[i].x,
        exists|i: int| 0 <= i < points.len() && #[trigger] points[i].y <= y,
        exists|i: int| 0 <= i < points.len() && y < #[trigger] points[i].y,
{
    let n = points.len() as int;
    lemma_crossings_left_extremes(points, y, x, n);
    lemma_crossing_count_even(points, y);
    if forall|i: int| 0 <= i < points.len() ==> y < #[trigger] points[i].y {
        lemma_no_crossings_outside(points, y, x, n);
    }
    if forall|i: int| 0 <= i < points.len() ==> #[trigger] points[i].y <= y {
        lemma_no_crossings_outside(points, y, x, n);
    }
}

/// The smallest column `x >= 0` whose center lies at or right of the fraction `n / d`:
/// columns `x >= 0` have the fraction left of their center exactly from here on.
fn first_column_right_of(n: i128, d: i128) -> (r: i128)
    requires
        0 < d <= 0x8_0000_0000,
        -0x80_0000_0000_0000_0000 <= n <= 0x80_0000_0000_0000_0000,
    ensures
        0 <= r <= 0x100_0000_0000_0000_0000,
        forall|x: int| 0 <= x ==> (left_of_center(n as int, d as int, x) <==> r <= x),
{
    let p = 2 * n - d;
    let q = 2 * d;
    if p <= 0 {
        proof {
            assert forall|x: int| 0 <= x implies left_of_center(n as int, d as int, x) by {
                assert(2 * n <= (2 * x + 1) * d) by (nonlinear_arith)
                    requires
                        0 <= x,
                        0 < d,
                        2 * n - d <= 0,
                ;
            }
        }
        0
    } else {
        let r = (p + q - 1) / q;
        proof {
            vstd::arithmetic::div_mod::lemma_fundamental_div_mod((p + q - 1) as int, q as int);
            vstd::arithmetic::div_mod::lemma_mod_pos_bound((p + q - 1) as int, q as int);
            let m = (p + q - 1) as int % (q as int);
            assert forall|x: int| 0 <= x implies (left_of_center(n as int, d as int, x) <==> r <= x) by {
                assert(left_of_center(n as int, d as int, x) <==> p <= x * q) by (nonlinear_arith)
                    requires
                        p == 2 * n - d,
                        q == 2 * d,
                ;
                assert(p <= x * q <==> r <= x) by (nonlinear_arith)
                    requires
                        p + q - 1 == q * r + m,
                        0 <= m < q,
                        0 < q,
                        0 < p,
                ;
            }
            assert(r <= p) by (nonlinear_arith)
                requires
                    p + q - 1 == q * r + m,
                    0 <= m < q,
                    1 < q,
                    0 < p,
            ;
        }
        r
    }
}

/// Inserts `c` into the sorted vector `s`, keeping it sorted.
fn insert_sorted(s: &mut Vec<(i128, i128)>, c: (i128, i128)) -> (k: usize)
    requires
        sorted_fracs(old(s)@),
        0 < c.1 <= 0x8_0000_0000,
        -0x80_0000_0000_0000_0000 <= c.0 <= 0x80_0000_0000_0000_0000,
    ensures
        k <= old(s)@.len(),
        final(s)@ == old(s)@.insert(k as int, c),
        sorted_fracs(final(s)@),
{
    let ghost s0 = s@;
    let len = s.len();
    let mut k: usize = 0;
    loop
        invariant_except_break
            s@ == s0,
            len == s0.len(),
            sorted_fracs(s0),
            0 < c.1 <= 0x8_0000_0000,
            -0x80_0000_0000_0000_0000 <= c.0 <= 0x80_0000_0000_0000_0000,
            k <= len,
            forall|i: int| 0 <= i < k ==> frac_le(#[trigger] s0[i].0 as int, s0[i].1 as int, c.0 as int, c.1 as int),
        ensures
            s@ == s0,
            k <= len,
            forall|i: int| 0 <= i < k ==> frac_le(#[trigger] s0[i].0 as int, s0[i].1 as int, c.0 as int, c.1 as int),
            k < len ==> !(s0[k as int].0 * c.1 <= c.0 * s0[k as int].1),
        decreases len - k,
    {
        if k >= len {
            break;
        }
        proof {
            lemma_frac_products(s0[k as int].0 as int, c.1 as int, c.0 as int, s0[k as int].1 as int);
        }
        if s[k].0 * c.1 <= c.0 * s[k].1 {
            k += 1;
        } else {
            break;
        }
    }
    s.insert(k, c);
    proof {
        let s1 = s@;
        assert forall|i: int| 0 <= i < s1.len() implies 0 < #[trigger] s1[i].1 <= 0x8_0000_0000 && -0x80_0000_0000_0000_0000
            <= s1[i].0 <= 0x80_0000_0000_0000_0000 by {
            if i < k {
                assert(s1[i] == s0[i]);
            } else if i > k {
                assert(s1[i] == s0[i - 1]);
            }
        }
        assert forall|i: int, j: int| 0 <= i < j < s1.len() implies frac_le(#[trigger] s1[i].0 as int, s1[i].1 as int, #[trigger] s1[j].0 as int, s1[j].1 as int) by {
            if j < k {
                assert(s1[i] == s0[i] && s1[j] == s0[j]);
            } else if j == k {
                assert(s1[i] == s0[i]);
            } else if i == k {
                assert(s1[j] == s0[j - 1]);
                assert(frac_le(c.0 as int, c.1 as int, s0[k as int].0 as int, s0[k as int].1 as int)) by (nonlinear_arith)
                    requires
                        !(s0[k as int].0 * c.1 <= c.0 * s0[k as int].1),
                ;
                if j - 1 > k {
                    lemma_frac_le_trans(c.0 as int, c.1 as int, s0[k as int].0 as int, s0[k as int].1 as int, s0[j - 1].0 as int, s0[j - 1].1 as int);
                }
            } else if i < k {
                assert(s1[i] == s0[i] && s1[j] == s0[j - 1]);
            } else {
                assert(s1[i] == s0[i - 1] && s1[j] == s0[j - 1]);
            }
        }
    }
    k
}

/// Products of two crossing quantities stay far inside `i128`.
proof fn lemma_frac_products(a: int, b: int, c: int, d: int)
    requires
        -0x80_0000_0000_0000_0000 <= a <= 0x80_0000_0000_0000_0000,
        0 < b <= 0x8_0000_0000,
        -0x80_0000_0000_0000_0000 <= c <= 0x80_0000_0000_0000_0000,
        0 < d <= 0x8_0000_0000,
    ensures
        -0x400_0000_0000_0000_0000_0000_0000 <= a * b <= 0x400_0000_0000_0000_0000_0000_0000,
        -0x400_0000_0000_0000_0000_0000_0000 <= c * d <= 0x400_0000_0000_0000_0000_0000_0000,
{
    assert(-0x400_0000_0000_0000_0000_0000_0000 <= a * b <= 0x400_0000_0000_0000_0000_0000_0000) by (nonlinear_arith)
        requires
            -0x80_0000_0000_0000_0000 <= a <= 0x80_0000_0000_0000_0000,
            0 < b <= 0x8_0000_0000,
    ;
    assert(-0x400_0000_0000_0000_0000_0000_0000 <= c * d <= 0x400_0000_0000_0000_0000_0000_0000) by (nonlinear_arith)
        requires
            -0x80_0000_0000_0000_0000 <= c <= 0x80_0000_0000_0000_0000,
            0 < d <= 0x8_0000_0000,
    ;
}

/// A scanline crosses at most one edge per edge.
proof fn lemma_crossing_count_le(points: Seq<Point>, y: int, k: int)
    requires
        k >= 0,
    ensures
        crossing_count(points, y, k) <= k,
    decreases k,
{
    if k > 0 {
        lemma_crossing_count_le(points, y, k - 1);
    }
}

/// The crossings of row `y`'s scanline with the closed polygon through `points`, sorted.
fn scanline_crossings(points: &[Point], y: i64) -> (s: Vec<(i128, i128)>)
    requires
        points@.len() >= 1,
        0 <= y <= 0xffff_ffff,
    ensures
        sorted_fracs(s@),
        s@.len() == crossing_count(points@, y as int, points@.len() as int),
        forall|x: int| #[trigger] count_left(s@, x) == crossings_left(points@, y as int, x, points@.len() as int),
{
    let n = points.len();
    let mut s: Vec<(i128, i128)> = Vec::new();
    let mut i: usize = 0;
    while i < n
        invariant
            n == points@.len(),
            n >= 1,
            0 <= y <= 0xffff_ffff,
            i <= n,
            sorted_fracs(s@),
            s@.len() == crossing_count(points@, y as int, i as int),
            forall|x: int| #[trigger] count_left(s@, x) == crossings_left(points@, y as int, x, i as int),
        decreases n - i,
    {
        let p1 = points[i];
        let p2 = points[(i + 1) % n];
        let ghost s_before = s@;
        assert(p1 == edge_from(points@, i as int));
        assert(p2 == edge_to(points@, i as int));
        if ((p1.y as i64) <= y) != ((p2.y as i64) <= y) {
            let d = 2 * (p2.y as i128 - p1.y as i128);
            let dy_center = 2 * (y as i128) + 1 - 2 * (p1.y as i128);
            let dx = p2.x as i128 - p1.x as i128;
            proof {
                assert(-0x1_0000_0000_0000_0000 <= p1.x * d <= 0x1_0000_0000_0000_0000) by (nonlinear_arith)
                    requires
                        -0x8000_0000 <= p1.x <= 0x7fff_ffff,
                        -0x2_0000_0000 <= d <= 0x2_0000_0000,
                ;
                assert(-0x4_0000_0000_0000_0000 <= dy_center * dx <= 0x4_0000_0000_0000_0000) by (nonlinear_arith)
                    requires
                        -0x4_0000_0000 <= dy_center <= 0x4_0000_0000,
                        -0x1_0000_0000 <= dx <= 0x1_0000_0000,
                ;
            }
            let num = p1.x as i128 * d + dy_center * dx;
            let c = if d < 0 { (-num, -d) } else { (num, d) };
            assert(c.0 as int == crossing(p1, p2, y as int).0 && c.1 as int == crossing(p1, p2, y as int).1);
            let k = insert_sorted(&mut s, c);
            proof {
                assert forall|x: int| #[trigger] count_left(s@, x) == crossings_left(points@, y as int, x, i + 1) by {
                    lemma_count_left_insert(s_before, k as int, c, x);
                }
            }
        }
        i += 1;
    }
    s
}

impl Canvas {
    /// Paints the columns of row `y` that have an odd number of the sorted crossings `s` at or
    /// left of their center: each successive pair of crossings bounds one filled span.
    fn fill_scanline(&mut self, s: &Vec<(i128, i128)>, y: i64, color: Color)
        requires
            old(self).wf(),
            sorted_fracs(s@),
            s@.len() % 2 == 0,
            0 <= y < old(self)@.height,
        ensures
            final(self).wf(),
            paints(old(self)@, final(self)@, color, |px: int, py: int| py == y && count_left(s@, px) % 2 == 1),
            final(self)@.next_version <= old(self)@.next_version + old(self)@.width * (s@.len() / 2),
    {
        let ghost c0 = self@;
        let canvas_w = self.width() as i64;
        let m = s.len();
        let ghost spans = |k: int, px: int, py: int| py == y && 0 <= k < m / 2 && left_of_center(s@[2 * k].0 as int, s@[2 * k].1 as int, px)
            && !left_of_center(s@[2 * k + 1].0 as int, s@[2 * k + 1].1 as int, px);
        proof {
            lemma_paint_nothing(c0, color);
            lemma_paint_same_set(c0, c0, color, |px: int, py: int| false,
                |px: int, py: int| exists|j: int| 0 <= j < 0 && #[trigger] spans(j, px, py));
        }
        let mut k: usize = 0;
        while k + 1 < m
            invariant
                c0.wf(),
                self.wf(),
                self@.width == c0.width,
                self@.height == c0.height,
                canvas_w == c0.width,
                sorted_fracs(s@),
                m == s@.len(),
                m % 2 == 0,
                k % 2 == 0,
                k <= m,
                0 <= y < c0.height,
                spans == (|k: int, px: int, py: int| py == y && 0 <= k < m / 2 && left_of_center(s@[2 * k].0 as int, s@[2 * k].1 as int, px)
                    && !left_of_center(s@[2 * k + 1].0 as int, s@[2 * k + 1].1 as int, px)),
                paints(c0, self@, color, |px: int, py: int| exists|j: int| 0 <= j < k / 2 && #[trigger] spans(j, px, py)),
                self@.next_version <= c0.next_version + c0.width * (k / 2),
            decreases m - k,
        {
            let (n0, d0) = s[k];
            let (n1, d1) = s[k + 1];
            let x_lo_full = first_column_right_of(n0, d0);
            let x_hi_full = first_column_right_of(n1, d1);
            let x_lo: i64 = if x_lo_full < canvas_w as i128 { x_lo_full as i64 } else { canvas_w };
            let x_hi: i64 = if x_hi_full < canvas_w as i128 { x_hi_full as i64 } else { canvas_w };
            let ghost mid = self@;
            self.fill_clipped_rect(x_lo, x_hi, y, y + 1, color);
            proof {
                let before = |px: int, py: int| exists|j: int| 0 <= j < k / 2 && #[trigger] spans(j, px, py);
                let span = |px: int, py: int| x_lo <= px < x_hi && y <= py < y + 1;
                crate::canvas::lemma_paint_trans(c0, mid, self@, color, before, span);
                assert forall|px: int, py: int| c0.in_bounds(px, py) implies ((before(px, py) || span(px, py)) <==> exists|j: int|
                    0 <= j < (k + 2) / 2 && #[trigger] spans(j, px, py)) by {
                    let kk = (k / 2) as int;
                    assert(2 * kk == k);
                    assert(span(px, py) <==> spans(kk, px, py));
                    if exists|j: int| 0 <= j < (k + 2) / 2 && #[trigger] spans(j, px, py) {
                        let j = choose|j: int| 0 <= j < (k + 2) / 2 && #[trigger] spans(j, px, py);
                        if j < k / 2 {
                            assert(before(px, py));
                        }
                    }
                }
                lemma_paint_same_set(c0, self@, color, |px: int, py: int| before(px, py) || span(px, py),
                    |px: int, py: int| exists|j: int| 0 <= j < (k + 2) / 2 && #[trigger] spans(j, px, py));
                assert(mid.next_version <= c0.next_version + c0.width * (k / 2));
                assert(x_hi - x_lo <= c0.width);
                assert(crate::geometry::max_int(y + 1 - y, 0) == 1);
                assert(crate::geometry::max_int(x_hi - x_lo, 0) * 1 <= c0.width);
                assert(self@.next_version <= mid.next_version + c0.width);
                lemma_rows_step(c0.width as int, (k / 2) as int);
                assert((k + 2) / 2 == k / 2 + 1);
            }
            k += 2;
        }
        proof {
            assert(k == m);
            assert forall|px: int, py: int| c0.in_bounds(px, py) implies ((exists|j: int| 0 <= j < k / 2 && #[trigger] spans(j, px, py))
                <==> (py == y && count_left(s@, px) % 2 == 1)) by {
                lemma_pairs_are_odd_counts(s@, px);
                if py == y && count_left(s@, px) % 2 == 1 {
                    let j = choose|j: int|
                        0 <= j < s@.len() / 2 && left_of_center(#[trigger] s@[2 * j].0 as int, s@[2 * j].1 as int, px) && !left_of_center(
                            s@[2 * j + 1].0 as int,
                            s@[2 * j + 1].1 as int,
                            px,
                        );
                    assert(spans(j, px, py));
                }
                if exists|j: int| 0 <= j < k / 2 && #[trigger] spans(j, px, py) {
                    let j = choose|j: int| 0 <= j < k / 2 && #[trigger] spans(j, px, py);
                    assert(left_of_center(s@[2 * j].0 as int, s@[2 * j].1 as int, px));
                }
            }
            lemma_paint_same_set(c0, self@, color, |px: int, py: int| exists|j: int| 0 <= j < k / 2 && #[trigger] spans(j, px, py),
                |px: int, py: int| py == y && count_left(s@, px) % 2 == 1);
        }
    }

    /// Fills the closed polygon through `points` (implicitly closed back to the first point)
    /// with the even-odd rule, row by row over the polygon's vertical extent clipped to the
    /// canvas. Fewer than three points have no interior.
    pub(crate) fn fill_polygon_even_odd(&mut self, points: &[Point], color: Color)
        requires
            old(self).wf(),
        ensures
            final(self).wf(),
            paints(old(self)@, final(self)@, color, |px: int, py: int| in_polygon(points@, px, py)),
            final(self)@.next_version <= old(self)@.next_version + points@.len() * area(old(self)@),
    {
        let ghost c0 = self@;
        let n = points.len();
        if n < 3 {
            proof {
                lemma_paint_nothing(c0, color);
                lemma_paint_same_set(c0, c0, color, |px: int, py: int| false, |px: int, py: int| in_polygon(points@, px, py));
            }
            return;
        }
        let canvas_h = self.height() as i64;
        let mut lo: i64 = points[0].y as i64;
        let mut hi: i64 = points[0].y as i64;
        let mut i: usize = 1;
        while i < n
            invariant
                n == points@.len(),
                1 <= i <= n,
                forall|j: int| 0 <= j < i ==> lo <= #[trigger] points@[j].y <= hi,
                -0x8000_0000 <= lo <= hi <= 0x7fff_ffff,
            decreases n - i,
        {
            let py = points[i].y as i64;
            if py < lo {
                lo = py;
            }
            if py > hi {
                hi = py;
            }
            i += 1;
        }
        let min_y: i64 = if lo > 0 { lo } else { 0 };
        let max_y: i64 = if hi < canvas_h - 1 { hi } else { canvas_h - 1 };
        let ghost target = |px: int, py: int| in_polygon(points@, px, py);
        proof {
            lemma_paint_nothing(c0, color);
            lemma_paint_same_set(c0, c0, color, |px: int, py: int| false,
                |px: int, py: int| target(px, py) && min_y <= py < min_y);
        }
        let mut y = min_y;
        while y <= max_y
            invariant
                c0.wf(),
                self.wf(),
                self@.height == c0.height,
                self@.width == c0.width,
                canvas_h == c0.height,
                n == points@.len(),
                n >= 3,
                0 <= min_y <= y,
                y <= max_y + 1 || y == min_y,
                max_y < canvas_h,
                target == (|px: int, py: int| in_polygon(points@, px, py)),
                paints(c0, self@, color, |px: int, py: int| target(px, py) && min_y <= py < y),
                self@.next_version <= c0.next_version + (c0.width * n) * (y - min_y),
            decreases max_y + 1 - y,
        {
            let crossings = scanline_crossings(points, y);
            proof {
                lemma_crossing_count_even(points@, y as int);
            }
            let ghost mid = self@;
            self.fill_scanline(&crossings, y, color);
            proof {
                let before = |px: int, py: int| target(px, py) && min_y <= py < y;
                let row = |px: int, py: int| py == y && count_left(crossings@, px) % 2 == 1;
                crate::canvas::lemma_paint_trans(c0, mid, self@, color, before, row);
                assert forall|px: int, py: int| c0.in_bounds(px, py) implies ((before(px, py) || row(px, py)) <==> (target(px, py)
                    && min_y <= py < y + 1)) by {
                    assert(count_left(crossings@, px) == crossings_left(points@, y as int, px, n as int));
                }
                lemma_paint_same_set(c0, self@, color, |px: int, py: int| before(px, py) || row(px, py),
                    |px: int, py: int| target(px, py) && min_y <= py < y + 1);
                lemma_crossing_count_le(points@, y as int, n as int);
                lemma_mul_le(c0.width as int, (crossings@.len() / 2) as int, c0.width as int, n as int);
                lemma_rows_step(c0.width * n, y - min_y);
            }
            y += 1;
        }
        proof {
            assert forall|px: int, py: int| c0.in_bounds(px, py) implies ((target(px, py) && min_y <= py < y) <==> target(px, py)) by {
                if py < min_y {
                    assert forall|j: int| 0 <= j < points@.len() implies py < #[trigger] points@[j].y by {
                        assert(lo <= points@[j].y);
                    }
                    lemma_no_crossings_outside(points@, py, px, n as int);
                } else if py >= y {
                    assert(py > hi);
                    assert forall|j: int| 0 <= j < points@.len() implies #[trigger] points@[j].y <= py by {
                        assert(points@[j].y <= hi);
                    }
                    lemma_no_crossings_outside(points@, py, px, n as int);
                }
            }
            lemma_paint_same_set(c0, self@, color, |px: int, py: int| target(px, py) && min_y <= py < y, target);
            assert((c0.width * n) * (y - min_y) <= n * (c0.width * c0.height)) by (nonlinear_arith)
                requires
                    0 <= y - min_y <= c0.height,
                    0 <= c0.width,
                    0 <= n,
            ;
        }
    }
}

} // verus!
