//! The pure pursuit core: path configuration validity, the lookahead
//! circle / segment intersection, and the segment-advance step relation that
//! both engines implement.

use vstd::prelude::*;
use vstd::arithmetic::div_mod::{
    lemma_div_is_ordered, lemma_div_multiples_vanish, lemma_fundamental_div_mod, lemma_mod_bound,
};

use crate::errors::ConfigurationError;
use crate::math::{
    div_floor_i128, isqrt_u128, lemma_div_bounds, lemma_sqrt_floor_exists,
    lemma_sqrt_floor_unique, sqrt_floor,
};
use crate::waypoint::{
    bounded, cross_sum_exec, dist_sq, dist_sq_exec, lemma_cauchy_schwarz, lemma_dist_sq_symmetric,
    lemma_sum_prod_bound, lemma_sum_prod_lin_sq, lemma_sum_prod_neg, lemma_sum_sq_nonneg,
    seq_diff, seq_lin, sum_prod, Waypoint, COORD_LIMIT, DIM_LIMIT,
};

verus! {

/// The views of a sequence of waypoints.
pub open spec fn pts_view(points: Seq<Waypoint>) -> Seq<Seq<int>> {
    points.map_values(|w: Waypoint| w@)
}

/// A usable path configuration: at least two waypoints, all of one nonzero
/// bounded dimension, all coordinates bounded, a positive bounded lookahead
/// radius, and no two adjacent waypoints coincident.
pub open spec fn wf_config(pts: Seq<Seq<int>>, radius: int) -> bool {
    &&& pts.len() >= 2
    &&& 1 <= pts[0].len() <= DIM_LIMIT
    &&& forall|i: int| 0 <= i < pts.len() ==> (#[trigger] pts[i]).len() == pts[0].len()
    &&& forall|i: int| 0 <= i < pts.len() ==> bounded(#[trigger] pts[i])
    &&& 0 < radius <= COORD_LIMIT as int
    &&& forall|i: int| 0 <= i < pts.len() - 1 ==> dist_sq(#[trigger] pts[i], pts[i + 1]) > 0
}

/// A tracking state fits a path of `n` waypoints when the tracked segment
/// index, if any, is at most `n - 2`.
pub open spec fn seg_wf(seg: Option<usize>, n: int) -> bool {
    seg matches Some(i) ==> i as int <= n - 2
}

/// The tracking state as a mathematical value.
pub open spec fn seg_view(seg: Option<usize>) -> Option<int> {
    match seg {
        Some(i) => Some(i as int),
        None => None,
    }
}

/// The endpoint of segment `p`--`q` nearer to `s`; the far endpoint `q` wins
/// a tie, favouring forward progress.
pub open spec fn nearer_endpoint(p: Seq<int>, q: Seq<int>, s: Seq<int>) -> Seq<int> {
    if dist_sq(s, q) <= dist_sq(s, p) {
        q
    } else {
        p
    }
}

/// Where the lookahead circle of radius `radius` around `s` meets the segment
/// from `p` to `q`, taking the root nearer the destination endpoint `q`.
///
/// The segment is parametrized as `r(t) = p + t * (q - p)`; `t` solves
/// `a*t^2 + b*t + c == 0` with `a`, `b`, `c` as below, and the larger root is
/// taken. The root is evaluated in integer arithmetic: the square root of the
/// discriminant is rounded down, `t` is clamped to `[0, 1]`, and each
/// coordinate is rounded down. When the discriminant is negative the circle
/// misses the segment's line and the nearer endpoint is the fallback target.
pub open spec fn intersect_spec(p: Seq<int>, q: Seq<int>, s: Seq<int>, radius: int) -> Seq<int> {
    let a = dist_sq(p, q);
    let b = 2 * sum_prod(seq_diff(p, s), seq_diff(q, p));
    let c = dist_sq(p, s) - radius * radius;
    let disc = b * b - 4 * a * c;
    if disc < 0 {
        nearer_endpoint(p, q, s)
    } else {
        let num = sqrt_floor(disc) - b;
        let den = 2 * a;
        if num <= 0 {
            p
        } else if num >= den {
            q
        } else {
            Seq::new(p.len(), |n: int| p[n] + (num * (q[n] - p[n])) / den)
        }
    }
}

/// A quotient `(num * v) / den` with `0 < num < den` lies between `0` and `v`.
proof fn lemma_clamped_div_range(num: int, den: int, v: int)
    requires
        0 < num < den,
    ensures
        v >= 0 ==> 0 <= (num * v) / den && (num * v) / den <= v,
        v < 0 ==> v <= (num * v) / den && (num * v) / den <= 0,
{
    lemma_div_multiples_vanish(v, den);
    if v >= 0 {
        assert(0 <= num * v <= den * v) by (nonlinear_arith)
            requires
                0 < num < den,
                v >= 0,
        ;
        lemma_div_is_ordered(num * v, den * v, den);
        lemma_div_bounds(num * v, den);
    } else {
        assert(den * v <= num * v <= 0) by (nonlinear_arith)
            requires
                0 < num < den,
                v < 0,
        ;
        lemma_div_is_ordered(den * v, num * v, den);
        lemma_div_is_ordered(num * v, 0, den);
        assert((0int) / den == 0) by {
            lemma_div_bounds(0, den);
        }
    }
}

/// Computes `intersect_spec` exactly.
pub(crate) fn intersect(p: &Waypoint, q: &Waypoint, s: &Waypoint, radius: i64) -> (t: Waypoint)
    requires
        p@.len() == q@.len() && p@.len() == s@.len(),
        1 <= p@.len() <= DIM_LIMIT,
        p.bounded_spec(),
        q.bounded_spec(),
        s.bounded_spec(),
        0 < radius <= COORD_LIMIT,
        dist_sq(p@, q@) > 0,
    ensures
        t@ == intersect_spec(p@, q@, s@, radius as int),
        t@.len() == p@.len(),
        t.bounded_spec(),
{
    let a = dist_sq_exec(p, q);
    let b2 = cross_sum_exec(p, s, q);
    let c0 = dist_sq_exec(p, s);
    let b = 2 * b2;
    let r128 = radius as i128;
    assert(0 < r128 * r128 <= 1_000_000_000_000) by (nonlinear_arith)
        requires
            0 < r128 <= 1_000_000,
    ;
    let rr = r128 * r128;
    let c = c0 - rr;
    assert(0 < a <= 4_096_000_000_000_000);
    assert(-8_192_000_000_000_000 <= b <= 8_192_000_000_000_000);
    assert(-4_096_000_000_000_000 <= c <= 4_096_000_000_000_000);
    assert({
        &&& 0 <= b * b <= 68_000_000_000_000_000_000_000_000_000_000
        &&& -68_000_000_000_000_000_000_000_000_000_000 <= 4 * a * c
            <= 68_000_000_000_000_000_000_000_000_000_000
    }) by (nonlinear_arith)
        requires
            0 < a <= 4_096_000_000_000_000,
            -8_192_000_000_000_000 <= b <= 8_192_000_000_000_000,
            -4_096_000_000_000_000 <= c <= 4_096_000_000_000_000,
    ;
    let disc = b * b - 4 * a * c;
    let ghost ispec = intersect_spec(p@, q@, s@, radius as int);
    if disc < 0 {
        let dq = dist_sq_exec(s, q);
        let dp = dist_sq_exec(s, p);
        if dq <= dp {
            let t = q.clone();
            assert(t@ == ispec);
            t
        } else {
            let t = p.clone();
            assert(t@ == ispec);
            t
        }
    } else {
        let sq = isqrt_u128(disc as u128);
        proof {
            lemma_sqrt_floor_unique(disc as int, sq as int);
        }
        let num = (sq as i128) - b;
        let den = 2 * a;
        if num <= 0 {
            let t = p.clone();
            assert(t@ == ispec);
            t
        } else if num >= den {
            let t = q.clone();
            assert(t@ == ispec);
            t
        } else {
            let dim = p.dimensions.len();
            let mut coords: Vec<i64> = Vec::new();
            let mut i: usize = 0;
            while i < dim
                invariant
                    0 <= i <= dim,
                    dim == p@.len() == q@.len(),
                    p.bounded_spec(),
                    q.bounded_spec(),
                    0 < num < den <= 8_192_000_000_000_000,
                    coords@.len() == i,
                    forall|k: int|
                        0 <= k < i ==> coords@[k] as int == p@[k] + ((num as int) * (q@[k] - p@[k]))
                            / (den as int),
                    forall|k: int|
                        0 <= k < i ==> -(COORD_LIMIT as int) <= #[trigger] coords@[k] as int
                            <= COORD_LIMIT as int,
                decreases dim - i,
            {
                let pn = p.dimensions[i] as i128;
                let vn = (q.dimensions[i] as i128) - pn;
                proof {
                    assert(p@[i as int] == p.dimensions@[i as int] as int);
                    assert(q@[i as int] == q.dimensions@[i as int] as int);
                    assert(-(COORD_LIMIT as int) <= p@[i as int] <= COORD_LIMIT as int);
                    assert(-(COORD_LIMIT as int) <= q@[i as int] <= COORD_LIMIT as int);
                }
                assert(-2_000_000 <= vn <= 2_000_000);
                assert(-0x4000_0000_0000_0000_0000 <= num * vn <= 0x4000_0000_0000_0000_0000)
                    by (nonlinear_arith)
                    requires
                        0 < num <= 8_192_000_000_000_000,
                        -2_000_000 <= vn <= 2_000_000,
                ;
                let step = div_floor_i128(num * vn, den);
                proof {
                    lemma_clamped_div_range(num as int, den as int, vn as int);
                }
                let cn = pn + step;
                assert(-(COORD_LIMIT as int) <= cn as int <= COORD_LIMIT as int);
                coords.push(cn as i64);
                i = i + 1;
            }
            let t = Waypoint { dimensions: coords };
            assert(t@ =~= ispec);
            t
        }
    }
}

/// The segment index reached from `i` by advancing past every segment whose
/// far endpoint already lies strictly within the lookahead circle, stopping
/// at the last segment.
pub open spec fn advance_from(pts: Seq<Seq<int>>, rsq: int, i: int, pos: Seq<int>) -> int
    decreases pts.len() - i,
{
    if i < pts.len() - 2 && dist_sq(pos, pts[i + 1]) < rsq {
        advance_from(pts, rsq, i + 1, pos)
    } else {
        i
    }
}

/// Advancing never moves backward and never runs past the last segment.
pub proof fn lemma_advance_from_bounds(pts: Seq<Seq<int>>, rsq: int, i: int, pos: Seq<int>)
    requires
        0 <= i <= pts.len() - 2,
    ensures
        i <= advance_from(pts, rsq, i, pos) <= pts.len() - 2,
    decreases pts.len() - i,
{
    if i < pts.len() - 2 && dist_sq(pos, pts[i + 1]) < rsq {
        lemma_advance_from_bounds(pts, rsq, i + 1, pos);
    }
}

/// The target returned while tracking segment `j`: the final waypoint once
/// its lookahead circle strictly contains the position, else the lookahead
/// intersection with segment `j`.
pub open spec fn target_at(pts: Seq<Seq<int>>, radius: int, j: int, pos: Seq<int>) -> Seq<int> {
    if dist_sq(pos, pts[j + 1]) < radius * radius {
        pts[pts.len() - 1]
    } else {
        intersect_spec(pts[j], pts[j + 1], pos, radius)
    }
}

/// One control tick: the tracking state after the tick and the target point
/// returned, as a function of the path, the state before, and the position.
///
/// From the unstarted state the engine waits until the position comes within
/// the lookahead radius of the first waypoint (non-strictly), returning that
/// waypoint meanwhile; once tracking, it advances past segments whose far
/// endpoint lies strictly within the radius and aims at the current segment.
pub open spec fn step_spec(pts: Seq<Seq<int>>, radius: int, seg: Option<int>, pos: Seq<int>) -> (
    Option<int>,
    Seq<int>,
) {
    let rsq = radius * radius;
    match seg {
        Some(i) => {
            let j = advance_from(pts, rsq, i, pos);
            (Some(j), target_at(pts, radius, j, pos))
        },
        None => {
            if dist_sq(pos, pts[0]) <= rsq {
                let j = advance_from(pts, rsq, 0, pos);
                (Some(j), target_at(pts, radius, j, pos))
            } else {
                (None, pts[0])
            }
        },
    }
}

/// One step of either engine: advances the tracking state and returns the
/// target point, exactly as `step_spec` describes.
pub(crate) fn step_core(
    points: &Vec<Waypoint>,
    radius: i64,
    segment: &mut Option<usize>,
    position: &Waypoint,
) -> (target: Waypoint)
    requires
        wf_config(pts_view(points@), radius as int),
        seg_wf(*old(segment), points@.len() as int),
        position@.len() == pts_view(points@)[0].len(),
        position.bounded_spec(),
    ensures
        ({
            let (seg2, tgt) = step_spec(
                pts_view(points@),
                radius as int,
                seg_view(*old(segment)),
                position@,
            );
            seg_view(*final(segment)) == seg2 && target@ == tgt
        }),
        seg_wf(*final(segment), points@.len() as int),
        target@.len() == position@.len(),
        bounded(target@),
        *old(segment) matches Some(i) ==> (*final(segment) matches Some(j) && i <= j),
{
    let ghost pts = pts_view(points@);
    let n = points.len();
    let r128 = radius as i128;
    assert(0 < r128 * r128 <= 1_000_000_000_000) by (nonlinear_arith)
        requires
            0 < r128 <= 1_000_000,
    ;
    let rsq = r128 * r128;
    let mut seg: usize;
    match *segment {
        None => {
            let d0 = dist_sq_exec(position, &points[0]);
            if d0 <= rsq {
                seg = 0;
            } else {
                let t = points[0].clone();
                assert(t@ == pts[0]);
                return t;
            }
        },
        Some(i) => {
            seg = i;
        },
    }
    let ghost seg0 = seg as int;
    loop
        invariant
            pts == pts_view(points@),
            wf_config(pts, radius as int),
            n == points@.len(),
            position@.len() == pts[0].len(),
            position.bounded_spec(),
            rsq as int == (radius as int) * (radius as int),
            seg0 <= seg as int,
            0 <= seg as int <= n - 2,
            advance_from(pts, rsq as int, seg as int, position@) == advance_from(
                pts,
                rsq as int,
                seg0,
                position@,
            ),
        ensures
            seg0 <= seg as int,
            0 <= seg as int <= n - 2,
            seg as int == advance_from(pts, rsq as int, seg0, position@),
        decreases n - seg,
    {
        if seg >= n - 2 {
            break ;
        }
        let d = dist_sq_exec(position, &points[seg + 1]);
        if d < rsq {
            seg = seg + 1;
        } else {
            break ;
        }
    }
    let d_end = dist_sq_exec(position, &points[seg + 1]);
    *segment = Some(seg);
    if d_end < rsq {
        let t = points[n - 1].clone();
        assert(t@ == pts[n - 1]);
        t
    } else {
        intersect(&points[seg], &points[seg + 1], position, radius)
    }
}

/// An unstarted engine strictly outside the lookahead radius of the first
/// waypoint returns that waypoint unchanged and stays unstarted; since the
/// state does not change, repeated steps at the same position give the same
/// answer again.
pub proof fn lemma_unstarted_out_of_range(pts: Seq<Seq<int>>, radius: int, pos: Seq<int>)
    requires
        wf_config(pts, radius),
        dist_sq(pos, pts[0]) > radius * radius,
    ensures
        step_spec(pts, radius, None, pos) == (None::<int>, pts[0]),
        step_spec(pts, radius, step_spec(pts, radius, None, pos).0, pos) == (
            None::<int>,
            pts[0],
        ),
{
}

/// Once the engine tracks the last segment and the position lies strictly
/// within the lookahead radius of the final waypoint, a step returns the
/// final waypoint and keeps the state, so every subsequent step at that
/// position does the same: the terminal behaviour is idempotent.
pub proof fn lemma_terminal_idempotent(pts: Seq<Seq<int>>, radius: int, pos: Seq<int>)
    requires
        wf_config(pts, radius),
        dist_sq(pos, pts[pts.len() - 1]) < radius * radius,
    ensures
        step_spec(pts, radius, Some(pts.len() - 2), pos) == (
            Some(pts.len() - 2),
            pts[pts.len() - 1],
        ),
        step_spec(pts, radius, step_spec(pts, radius, Some(pts.len() - 2), pos).0, pos) == (
            Some(pts.len() - 2),
            pts[pts.len() - 1],
        ),
{
    let i = pts.len() - 2;
    assert(advance_from(pts, radius * radius, i, pos) == i);
}

/// Across a step the tracked segment index never decreases, and never runs
/// past the last segment.
pub proof fn lemma_segment_monotonic(pts: Seq<Seq<int>>, radius: int, i: int, pos: Seq<int>)
    requires
        wf_config(pts, radius),
        0 <= i <= pts.len() - 2,
    ensures
        step_spec(pts, radius, Some(i), pos).0 matches Some(j) && i <= j <= pts.len() - 2,
{
    lemma_advance_from_bounds(pts, radius * radius, i, pos);
}

/// When the lookahead circle meets the segment's line, the intersection
/// point lies on the circle, up to the rounding of the discriminant's square
/// root: with every coordinate scaled by `2a`, the vector `w` from the
/// position to the point at the computed (unclamped) parameter satisfies
/// `|w|^2 == (2*a*radius)^2 + a*(sq^2 - disc)`, where `sq` is the rounded
/// root of the discriminant `disc`. Since `sq^2 <= disc < (sq+1)^2`, the
/// squared scaled distance falls short of `(2*a*radius)^2` by at most
/// `2*a*sq`, and equals it exactly when the discriminant is a perfect
/// square.
pub proof fn lemma_intersection_on_circle(p: Seq<int>, q: Seq<int>, s: Seq<int>, radius: int)
    requires
        p.len() == q.len() && p.len() == s.len(),
        dist_sq(p, q) > 0,
        ({
            let a = dist_sq(p, q);
            let b = 2 * sum_prod(seq_diff(p, s), seq_diff(q, p));
            let c = dist_sq(p, s) - radius * radius;
            b * b - 4 * a * c >= 0
        }),
    ensures
        ({
            let a = dist_sq(p, q);
            let b = 2 * sum_prod(seq_diff(p, s), seq_diff(q, p));
            let c = dist_sq(p, s) - radius * radius;
            let disc = b * b - 4 * a * c;
            let sq = sqrt_floor(disc);
            let w = seq_lin(seq_diff(p, s), seq_diff(q, p), 2 * a, sq - b);
            &&& sum_prod(w, w) == 4 * a * a * (radius * radius) + a * (sq * sq - disc)
            &&& 4 * a * a * (radius * radius) - 2 * a * sq <= sum_prod(w, w) <= 4 * a * a * (
            radius * radius)
        }),
{
    let u = seq_diff(p, s);
    let v = seq_diff(q, p);
    let a = dist_sq(p, q);
    let c0 = dist_sq(p, s);
    let sp = sum_prod(u, v);
    let b = 2 * sp;
    let c = c0 - radius * radius;
    let disc = b * b - 4 * a * c;
    let sq = sqrt_floor(disc);
    let w = seq_lin(u, v, 2 * a, sq - b);
    assert(v =~= seq_diff(p, q).map_values(|x: int| -x));
    lemma_sum_prod_neg(seq_diff(p, q), seq_diff(p, q));
    assert(sum_prod(v, v) == a);
    lemma_sum_prod_lin_sq(u, v, 2 * a, sq - b);
    let y = sq - b;
    assert(sum_prod(w, w) == (2 * a) * (2 * a) * c0 + 2 * (2 * a) * y * sp + y * y * a);
    assert(2 * (2 * a) * y * sp + y * y * a == a * (sq * sq) - a * (b * b)) by (nonlinear_arith)
        requires
            y == sq - b,
            b == 2 * sp,
    ;
    assert(a * (sq * sq - disc) == a * (sq * sq) - a * (b * b) + 4 * a * a * c0 - 4 * a * a * (
    radius * radius)) by (nonlinear_arith)
        requires
            disc == b * b - 4 * a * c,
            c == c0 - radius * radius,
    ;
    assert((2 * a) * (2 * a) * c0 == 4 * a * a * c0) by (nonlinear_arith);
    lemma_sqrt_floor_exists(disc);
    assert(sq * sq <= disc < (sq + 1) * (sq + 1));
    assert(disc - sq * sq <= 2 * sq) by (nonlinear_arith)
        requires
            disc < (sq + 1) * (sq + 1),
    ;
    assert(-(2 * a * sq) <= a * (sq * sq - disc) <= 0) by (nonlinear_arith)
        requires
            0 < a,
            sq * sq <= disc,
            disc - sq * sq <= 2 * sq,
    ;
}

/// The point the intersection actually returns lies on the lookahead circle
/// up to a dimension-bounded error. When the discriminant is nonnegative and
/// the clamped larger root falls strictly inside the segment, the squared
/// distance from the position to the returned target is at most
/// `(radius + sd)^2` and at least `radius * (radius - 1 - 2*sd)`, where
/// `sd = sqrt_floor(dim) + 1` exceeds the square root of the dimension; for
/// `radius >= 1 + 2*sd` the squared distance is also at least
/// `(radius - 1 - 2*sd)^2`, so the returned distance stays within `2*sd + 1`
/// of the radius.
pub proof fn lemma_target_on_circle(p: Seq<int>, q: Seq<int>, s: Seq<int>, radius: int)
    requires
        p.len() == q.len() && p.len() == s.len(),
        1 <= p.len(),
        0 < radius,
        dist_sq(p, q) > 0,
        ({
            let a = dist_sq(p, q);
            let b = 2 * sum_prod(seq_diff(p, s), seq_diff(q, p));
            let c = dist_sq(p, s) - radius * radius;
            let disc = b * b - 4 * a * c;
            &&& 0 <= disc
            &&& 0 < sqrt_floor(disc) - b < 2 * a
        }),
    ensures
        ({
            let t = intersect_spec(p, q, s, radius);
            let sd = sqrt_floor(p.len() as int) + 1;
            &&& dist_sq(t, s) <= (radius + sd) * (radius + sd)
            &&& radius * (radius - 1 - 2 * sd) <= dist_sq(t, s)
            &&& radius >= 1 + 2 * sd ==> (radius - 1 - 2 * sd) * (radius - 1 - 2 * sd)
                <= dist_sq(t, s)
        }),
{
    let dim = p.len() as int;
    let u = seq_diff(p, s);
    let v = seq_diff(q, p);
    let a = dist_sq(p, q);
    let sp = sum_prod(u, v);
    let b = 2 * sp;
    let c0 = dist_sq(p, s);
    let c = c0 - radius * radius;
    let disc = b * b - 4 * a * c;
    let sq = sqrt_floor(disc);
    let num = sq - b;
    let den = 2 * a;
    let t = intersect_spec(p, q, s, radius);
    assert(t =~= Seq::new(p.len(), |n: int| p[n] + (num * (q[n] - p[n])) / den));
    lemma_intersection_on_circle(p, q, s, radius);
    let w = seq_lin(u, v, 2 * a, sq - b);
    let ww = sum_prod(w, w);
    // the per-coordinate rounding error of the returned point, scaled by den
    let e = Seq::new(
        p.len(),
        |n: int| den * ((num * (q[n] - p[n])) / den) - num * (q[n] - p[n]),
    );
    assert forall|n: int| 0 <= n < dim implies -(den - 1) <= #[trigger] e[n] <= 0 by {
        let x = num * (q[n] - p[n]);
        lemma_fundamental_div_mod(x, den);
        lemma_mod_bound(x, den);
        assert(e[n] == -(x % den));
    }
    let d = seq_diff(t, s);
    assert forall|n: int| 0 <= n < dim implies seq_lin(d, d, den, 0)[n] == seq_lin(
        w,
        e,
        1,
        1,
    )[n] by {
        let quo = (num * (q[n] - p[n])) / den;
        assert(d[n] == p[n] + quo - s[n]);
        assert(den * (p[n] + quo - s[n]) == den * (p[n] - s[n]) + den * quo)
            by (nonlinear_arith);
        assert(w[n] == den * (p[n] - s[n]) + num * (q[n] - p[n]));
    }
    assert(seq_lin(d, d, den, 0) =~= seq_lin(w, e, 1, 1));
    lemma_sum_prod_lin_sq(d, d, den, 0);
    lemma_sum_prod_lin_sq(w, e, 1, 1);
    let bigd = dist_sq(t, s);
    let ee = sum_prod(w, e);
    let ff = sum_prod(e, e);
    assert(den * den * bigd == ww + 2 * ee + ff);
    lemma_cauchy_schwarz(w, e);
    lemma_sum_sq_nonneg(w);
    lemma_sum_sq_nonneg(e);
    lemma_sum_prod_bound(e, e, den - 1, den - 1);
    lemma_sqrt_floor_exists(dim);
    let sd = sqrt_floor(dim) + 1;
    assert(dim < sd * sd);
    // the rounded root is at most den * radius, by Cauchy-Schwarz on the
    // quadratic's coefficients
    lemma_cauchy_schwarz(u, v);
    assert(v =~= seq_diff(p, q).map_values(|x: int| -x));
    lemma_sum_prod_neg(seq_diff(p, q), seq_diff(p, q));
    assert(sum_prod(v, v) == a);
    assert(disc <= 4 * a * (radius * radius)) by (nonlinear_arith)
        requires
            disc == b * b - 4 * a * c,
            b == 2 * sp,
            c == c0 - radius * radius,
            sp * sp <= c0 * a,
    ;
    lemma_sqrt_floor_exists(disc);
    assert(sq <= den * radius) by (nonlinear_arith)
        requires
            sq * sq <= disc,
            disc <= 4 * a * (radius * radius),
            den == 2 * a,
            0 <= sq,
            0 < a,
            0 < radius,
    ;
    assert(ff <= (sd * den) * (sd * den)) by (nonlinear_arith)
        requires
            ff <= dim * (den - 1) * (den - 1),
            dim < sd * sd,
            0 < den,
            0 < sd,
    ;
    assert(ww <= (den * radius) * (den * radius)) by (nonlinear_arith)
        requires
            ww <= 4 * a * a * (radius * radius),
            den == 2 * a,
    ;
    assert(-((den * radius) * (sd * den)) <= ee && ee <= (den * radius) * (sd * den))
        by (nonlinear_arith)
        requires
            ee * ee <= ww * ff,
            0 <= ww,
            ww <= (den * radius) * (den * radius),
            0 <= ff,
            ff <= (sd * den) * (sd * den),
            0 < den,
            0 < radius,
            0 < sd,
    ;
    assert(den * den * bigd <= den * den * ((radius + sd) * (radius + sd))) by (nonlinear_arith)
        requires
            den * den * bigd == ww + 2 * ee + ff,
            ww <= (den * radius) * (den * radius),
            ee <= (den * radius) * (sd * den),
            ff <= (sd * den) * (sd * den),
            0 < den,
            0 < radius,
            0 < sd,
    ;
    assert(bigd <= (radius + sd) * (radius + sd)) by (nonlinear_arith)
        requires
            den * den * bigd <= den * den * ((radius + sd) * (radius + sd)),
            0 < den,
    ;
    assert(den * den * bigd >= den * den * (radius * (radius - 1 - 2 * sd)))
        by (nonlinear_arith)
        requires
            den * den * bigd == ww + 2 * ee + ff,
            ww >= 4 * a * a * (radius * radius) - 2 * a * sq,
            sq <= den * radius,
            ee >= -((den * radius) * (sd * den)),
            ff >= 0,
            den == 2 * a,
            0 < a,
            0 < radius,
            0 < sd,
    ;
    assert(bigd >= radius * (radius - 1 - 2 * sd)) by (nonlinear_arith)
        requires
            den * den * bigd >= den * den * (radius * (radius - 1 - 2 * sd)),
            0 < den,
    ;
    assert(radius >= 1 + 2 * sd ==> (radius - 1 - 2 * sd) * (radius - 1 - 2 * sd) <= bigd)
        by (nonlinear_arith)
        requires
            bigd >= radius * (radius - 1 - 2 * sd),
            0 < radius,
            0 < sd,
    ;
}

/// Why `pts` with `radius` is no usable configuration, or `None` when it is.
/// The checks run in this order; the first failure names the error.
pub open spec fn validate_config(pts: Seq<Seq<int>>, radius: int) -> Option<ConfigurationError> {
    if radius <= 0 {
        Some(ConfigurationError::NonPositiveRadius)
    } else if radius > COORD_LIMIT as int {
        Some(ConfigurationError::RadiusTooLarge)
    } else if pts.len() < 2 {
        Some(ConfigurationError::TooFewPoints)
    } else if pts[0].len() < 1 {
        Some(ConfigurationError::ZeroDimension)
    } else if pts[0].len() > DIM_LIMIT as int {
        Some(ConfigurationError::DimensionTooLarge)
    } else if !(forall|i: int|
        0 <= i < pts.len() ==> (#[trigger] pts[i]).len() == pts[0].len()) {
        Some(ConfigurationError::DimensionMismatch)
    } else if !(forall|i: int| 0 <= i < pts.len() ==> bounded(#[trigger] pts[i])) {
        Some(ConfigurationError::CoordinateOutOfRange)
    } else if !(forall|i: int|
        0 <= i < pts.len() - 1 ==> dist_sq(#[trigger] pts[i], pts[i + 1]) != 0) {
        Some(ConfigurationError::DegenerateSegment)
    } else {
        None
    }
}

/// A configuration that validates is well formed.
pub proof fn lemma_validate_ok(pts: Seq<Seq<int>>, radius: int)
    requires
        validate_config(pts, radius) is None,
    ensures
        wf_config(pts, radius),
{
    assert forall|i: int| 0 <= i < pts.len() - 1 implies dist_sq(#[trigger] pts[i], pts[i + 1])
        > 0 by {
        lemma_dist_sq_symmetric(pts[i], pts[i + 1]);
    }
}

/// Checks a configuration, returning exactly what `validate_config` names.
#[verifier::loop_isolation(false)]
#[verifier::rlimit(60)]
pub(crate) fn validate(points: &Vec<Waypoint>, radius: i64) -> (r: Option<ConfigurationError>)
    ensures
        r == validate_config(pts_view(points@), radius as int),
{
    let ghost pts = pts_view(points@);
    if radius <= 0 {
        return Some(ConfigurationError::NonPositiveRadius);
    }
    if radius > COORD_LIMIT {
        return Some(ConfigurationError::RadiusTooLarge);
    }
    let n = points.len();
    if n < 2 {
        return Some(ConfigurationError::TooFewPoints);
    }
    let dim = points[0].dimensions.len();
    assert(pts[0].len() == dim);
    if dim < 1 {
        return Some(ConfigurationError::ZeroDimension);
    }
    if dim > DIM_LIMIT {
        return Some(ConfigurationError::DimensionTooLarge);
    }
    let mut i: usize = 0;
    while i < n
        invariant
            0 <= i <= n,
            forall|k: int| 0 <= k < i ==> (#[trigger] pts[k]).len() == dim as int,
        decreases n - i,
    {
        if points[i].dimensions.len() != dim {
            assert(pts[i as int].len() != pts[0].len());
            return Some(ConfigurationError::DimensionMismatch);
        }
        i = i + 1;
    }
    let mut i: usize = 0;
    while i < n
        invariant
            0 <= i <= n,
            forall|k: int| 0 <= k < i ==> bounded(#[trigger] pts[k]),
        decreases n - i,
    {
        let mut k: usize = 0;
        while k < dim
            invariant
                0 <= k <= dim,
                pts[i as int].len() == dim as int,
                forall|m: int|
                    0 <= m < k ==> -(COORD_LIMIT as int) <= #[trigger] pts[i as int][m]
                        <= COORD_LIMIT as int,
            decreases dim - k,
        {
            let c = points[i].dimensions[k];
            assert(pts[i as int][k as int] == c as int);
            if c < -COORD_LIMIT || c > COORD_LIMIT {
                assert(!bounded(pts[i as int]));
                return Some(ConfigurationError::CoordinateOutOfRange);
            }
            k = k + 1;
        }
        assert(bounded(pts[i as int]));
        i = i + 1;
    }
    let mut i: usize = 0;
    while i < n - 1
        invariant
            0 <= i <= n - 1,
            forall|k: int| 0 <= k < i ==> dist_sq(#[trigger] pts[k], pts[k + 1]) != 0,
        decreases n - 1 - i,
    {
        assert(pts[i as int].len() == dim as int && pts[i as int + 1].len() == dim as int);
        assert(bounded(pts[i as int]) && bounded(pts[i as int + 1]));
        let d = dist_sq_exec(&points[i], &points[i + 1]);
        if d == 0 {
            return Some(ConfigurationError::DegenerateSegment);
        }
        i = i + 1;
    }
    None
}

} // verus!
