//! The waypoint geometry primitive and its mathematical model: sums of
//! coordinate products, squared Euclidean distance, and the `pythag` distance.

use vstd::prelude::*;

use crate::math::{
    is_sqrt_floor, isqrt_u128, lemma_sqrt_floor_exists, lemma_sqrt_floor_unique, sqrt_floor,
};

verus! {

/// Largest magnitude a coordinate or a lookahead radius may have.
pub const COORD_LIMIT: i64 = 1_000_000;

/// Largest number of dimensions a waypoint may have.
pub const DIM_LIMIT: usize = 1024;

/// Sum over `i` of `x[i] * y[i]` (an inner product of integer sequences).
pub open spec fn sum_prod(x: Seq<int>, y: Seq<int>) -> int
    decreases x.len(),
{
    if x.len() == 0 {
        0
    } else {
        x[0] * y[0] + sum_prod(x.drop_first(), y.drop_first())
    }
}

/// The coordinatewise difference `a - b`.
pub open spec fn seq_diff(a: Seq<int>, b: Seq<int>) -> Seq<int> {
    Seq::new(a.len(), |i: int| a[i] - b[i])
}

/// Squared Euclidean distance between two coordinate sequences.
pub open spec fn dist_sq(a: Seq<int>, b: Seq<int>) -> int {
    sum_prod(seq_diff(a, b), seq_diff(a, b))
}

/// Every coordinate lies within `COORD_LIMIT` in magnitude.
pub open spec fn bounded(s: Seq<int>) -> bool {
    forall|i: int| 0 <= i < s.len() ==> -(COORD_LIMIT as int) <= #[trigger] s[i] <= COORD_LIMIT as int
}

/// Appending one element to each sequence adds one product to the sum.
pub proof fn lemma_sum_prod_push(x: Seq<int>, y: Seq<int>, a: int, b: int)
    requires
        x.len() == y.len(),
    ensures
        sum_prod(x.push(a), y.push(b)) == sum_prod(x, y) + a * b,
    decreases x.len(),
{
    if x.len() == 0 {
        assert(x.push(a)[0] == a && y.push(b)[0] == b);
        assert(x.push(a).drop_first() =~= Seq::<int>::empty());
        assert(y.push(b).drop_first() =~= Seq::<int>::empty());
        assert(sum_prod(Seq::<int>::empty(), Seq::<int>::empty()) == 0);
    } else {
        assert(x.push(a).drop_first() =~= x.drop_first().push(a));
        assert(y.push(b).drop_first() =~= y.drop_first().push(b));
        lemma_sum_prod_push(x.drop_first(), y.drop_first(), a, b);
    }
}

/// A sum of squares is nonnegative, and zero exactly when every entry is zero.
pub proof fn lemma_sum_sq_nonneg(x: Seq<int>)
    ensures
        0 <= sum_prod(x, x),
        sum_prod(x, x) == 0 <==> (forall|i: int| 0 <= i < x.len() ==> x[i] == 0),
    decreases x.len(),
{
    if x.len() == 0 {
    } else {
        let xt = x.drop_first();
        lemma_sum_sq_nonneg(xt);
        assert(x[0] * x[0] >= 0 && (x[0] * x[0] == 0 <==> x[0] == 0)) by (nonlinear_arith);
        if sum_prod(x, x) == 0 {
            assert(x[0] == 0);
            assert(sum_prod(xt, xt) == 0);
            assert forall|i: int| 0 <= i < x.len() implies x[i] == 0 by {
                if i >= 1 {
                    assert(x[i] == xt[i - 1]);
                }
            }
        }
        if forall|i: int| 0 <= i < x.len() ==> x[i] == 0 {
            assert forall|i: int| 0 <= i < xt.len() implies xt[i] == 0 by {
                assert(xt[i] == x[i + 1]);
            }
            assert(sum_prod(xt, xt) == 0);
            assert(x[0] == 0);
            assert(sum_prod(x, x) == 0);
        }
    }
}

/// Entrywise bounds give a bound on the inner product.
pub proof fn lemma_sum_prod_bound(x: Seq<int>, y: Seq<int>, mx: int, my: int)
    requires
        x.len() == y.len(),
        0 <= mx,
        0 <= my,
        forall|i: int| 0 <= i < x.len() ==> -mx <= #[trigger] x[i] <= mx,
        forall|i: int| 0 <= i < y.len() ==> -my <= #[trigger] y[i] <= my,
    ensures
        -((x.len() as int) * mx * my) <= sum_prod(x, y) <= (x.len() as int) * mx * my,
    decreases x.len(),
{
    if x.len() == 0 {
    } else {
        let xt = x.drop_first();
        let yt = y.drop_first();
        assert(forall|i: int| 0 <= i < xt.len() ==> -mx <= #[trigger] xt[i] <= mx);
        assert(forall|i: int| 0 <= i < yt.len() ==> -my <= #[trigger] yt[i] <= my);
        lemma_sum_prod_bound(xt, yt, mx, my);
        assert(-(mx * my) <= x[0] * y[0] <= mx * my) by (nonlinear_arith)
            requires
                -mx <= x[0] <= mx,
                -my <= y[0] <= my,
                0 <= mx,
                0 <= my,
        ;
        assert((x.len() as int) * mx * my == mx * my + (xt.len() as int) * mx * my)
            by (nonlinear_arith)
            requires
                x.len() == xt.len() + 1,
        ;
    }
}

/// Negating one side negates the inner product; negating both leaves it as it is.
pub proof fn lemma_sum_prod_neg(x: Seq<int>, y: Seq<int>)
    requires
        x.len() == y.len(),
    ensures
        sum_prod(x.map_values(|v: int| -v), y) == -sum_prod(x, y),
        sum_prod(x.map_values(|v: int| -v), y.map_values(|v: int| -v)) == sum_prod(x, y),
    decreases x.len(),
{
    let xn = x.map_values(|v: int| -v);
    let yn = y.map_values(|v: int| -v);
    if x.len() == 0 {
        assert(xn.len() == 0);
    } else {
        lemma_sum_prod_neg(x.drop_first(), y.drop_first());
        assert(xn.drop_first() =~= x.drop_first().map_values(|v: int| -v));
        assert(yn.drop_first() =~= y.drop_first().map_values(|v: int| -v));
        assert((-x[0]) * y[0] == -(x[0] * y[0])) by (nonlinear_arith);
        assert((-x[0]) * (-y[0]) == x[0] * y[0]) by (nonlinear_arith);
    }
}

/// Squared distance is symmetric, and zero from a point to itself.
pub proof fn lemma_dist_sq_symmetric(a: Seq<int>, b: Seq<int>)
    requires
        a.len() == b.len(),
    ensures
        dist_sq(a, b) == dist_sq(b, a),
        dist_sq(a, a) == 0,
        0 <= dist_sq(a, b),
{
    let d = seq_diff(a, b);
    assert(seq_diff(b, a) =~= d.map_values(|v: int| -v));
    lemma_sum_prod_neg(d, d);
    assert(seq_diff(a, a) =~= Seq::new(a.len(), |i: int| 0));
    lemma_sum_sq_nonneg(seq_diff(a, a));
    lemma_sum_sq_nonneg(d);
}

/// Two sequences of equal length and squared distance zero are equal.
pub proof fn lemma_dist_sq_zero(a: Seq<int>, b: Seq<int>)
    requires
        a.len() == b.len(),
    ensures
        dist_sq(a, b) == 0 <==> a == b,
{
    lemma_sum_sq_nonneg(seq_diff(a, b));
    lemma_dist_sq_symmetric(a, b);
    if dist_sq(a, b) == 0 {
        assert forall|i: int| 0 <= i < a.len() implies a[i] == b[i] by {
            assert(seq_diff(a, b)[i] == 0);
        }
        assert(a =~= b);
    } else {
        if a == b {
            assert(dist_sq(a, b) == dist_sq(a, a));
        }
    }
}

/// The entrywise linear combination `x*u + y*v`.
pub open spec fn seq_lin(u: Seq<int>, v: Seq<int>, x: int, y: int) -> Seq<int> {
    Seq::new(u.len(), |i: int| x * u[i] + y * v[i])
}

/// Expanding the square of a linear combination of sequences:
/// `|x*u + y*v|^2 == x^2*|u|^2 + 2*x*y*(u . v) + y^2*|v|^2`.
pub proof fn lemma_sum_prod_lin_sq(u: Seq<int>, v: Seq<int>, x: int, y: int)
    requires
        u.len() == v.len(),
    ensures
        sum_prod(seq_lin(u, v, x, y), seq_lin(u, v, x, y)) == x * x * sum_prod(u, u) + 2 * x * y
            * sum_prod(u, v) + y * y * sum_prod(v, v),
    decreases u.len(),
{
    let w = seq_lin(u, v, x, y);
    if u.len() == 0 {
        assert(w.len() == 0);
    } else {
        let ut = u.drop_first();
        let vt = v.drop_first();
        lemma_sum_prod_lin_sq(ut, vt, x, y);
        assert(w.drop_first() =~= seq_lin(ut, vt, x, y));
        let a0 = u[0];
        let b0 = v[0];
        let su = sum_prod(ut, ut);
        let sv = sum_prod(vt, vt);
        let suv = sum_prod(ut, vt);
        assert(w[0] == x * a0 + y * b0);
        let l = x * a0;
        let m = y * b0;
        assert((l + m) * (l + m) == l * l + 2 * (l * m) + m * m) by (nonlinear_arith);
        assert(l * l == x * x * (a0 * a0)) by (nonlinear_arith)
            requires
                l == x * a0,
        ;
        assert(2 * (l * m) == 2 * x * y * (a0 * b0)) by (nonlinear_arith)
            requires
                l == x * a0,
                m == y * b0,
        ;
        assert(m * m == y * y * (b0 * b0)) by (nonlinear_arith)
            requires
                m == y * b0,
        ;
        assert(x * x * (a0 * a0 + su) == x * x * (a0 * a0) + x * x * su) by (nonlinear_arith);
        assert(2 * x * y * (a0 * b0 + suv) == 2 * x * y * (a0 * b0) + 2 * x * y * suv)
            by (nonlinear_arith);
        assert(y * y * (b0 * b0 + sv) == y * y * (b0 * b0) + y * y * sv) by (nonlinear_arith);
        assert(sum_prod(u, u) == a0 * a0 + su);
        assert(sum_prod(v, v) == b0 * b0 + sv);
        assert(sum_prod(u, v) == a0 * b0 + suv);
    }
}

/// The inner product is symmetric.
pub proof fn lemma_sum_prod_comm(x: Seq<int>, y: Seq<int>)
    requires
        x.len() == y.len(),
    ensures
        sum_prod(x, y) == sum_prod(y, x),
    decreases x.len(),
{
    if x.len() > 0 {
        lemma_sum_prod_comm(x.drop_first(), y.drop_first());
        assert(x[0] * y[0] == y[0] * x[0]) by (nonlinear_arith);
    }
}

/// The Cauchy-Schwarz inequality: `(u . v)^2 <= |u|^2 * |v|^2`.
pub proof fn lemma_cauchy_schwarz(u: Seq<int>, v: Seq<int>)
    requires
        u.len() == v.len(),
    ensures
        sum_prod(u, v) * sum_prod(u, v) <= sum_prod(u, u) * sum_prod(v, v),
    decreases u.len(),
{
    if u.len() == 0 {
    } else {
        let ut = u.drop_first();
        let vt = v.drop_first();
        lemma_cauchy_schwarz(ut, vt);
        let u0 = u[0];
        let v0 = v[0];
        let aa = sum_prod(ut, ut);
        let bb = sum_prod(ut, vt);
        let cc = sum_prod(vt, vt);
        let w = seq_lin(vt, ut, u0, -v0);
        lemma_sum_prod_lin_sq(vt, ut, u0, -v0);
        lemma_sum_sq_nonneg(w);
        lemma_sum_prod_comm(vt, ut);
        assert(0 <= u0 * u0 * cc + 2 * u0 * (-v0) * bb + (-v0) * (-v0) * aa);
        let uu = u0 * u0;
        let vv = v0 * v0;
        let uv = u0 * v0;
        assert(sum_prod(u, u) == uu + aa);
        assert(sum_prod(v, v) == vv + cc);
        assert(sum_prod(u, v) == uv + bb);
        assert((uv + bb) * (uv + bb) == uv * uv + 2 * uv * bb + bb * bb) by (nonlinear_arith);
        assert((uu + aa) * (vv + cc) == uu * vv + uu * cc + aa * vv + aa * cc)
            by (nonlinear_arith);
        assert(uv * uv == uu * vv) by (nonlinear_arith)
            requires
                uu == u0 * u0,
                vv == v0 * v0,
                uv == u0 * v0,
        ;
        assert(0 <= uu * cc - 2 * uv * bb + vv * aa) by (nonlinear_arith)
            requires
                0 <= u0 * u0 * cc + 2 * u0 * (-v0) * bb + (-v0) * (-v0) * aa,
                uu == u0 * u0,
                vv == v0 * v0,
                uv == u0 * v0,
        ;
        assert(aa * vv == vv * aa) by (nonlinear_arith);
        assert((uv + bb) * (uv + bb) <= (uu + aa) * (vv + cc));
    }
}

/// Splitting a squared distance at an intermediate point:
/// `|a-c|^2 == |a-b|^2 + 2*(a-b).(b-c) + |b-c|^2`.
pub proof fn lemma_dist_sq_split(a: Seq<int>, b: Seq<int>, c: Seq<int>)
    requires
        a.len() == b.len() && a.len() == c.len(),
    ensures
        dist_sq(a, c) == dist_sq(a, b) + 2 * sum_prod(seq_diff(a, b), seq_diff(b, c)) + dist_sq(
            b,
            c,
        ),
{
    let u = seq_diff(a, b);
    let v = seq_diff(b, c);
    assert(seq_diff(a, c) =~= seq_lin(u, v, 1, 1));
    lemma_sum_prod_lin_sq(u, v, 1, 1);
}

/// The triangle inequality for the rounded distance: the distance from `a`
/// to `c` never exceeds the distance from `a` to `b` plus the distance from
/// `b` to `c`, up to the one unit that rounding each distance down may cost.
pub proof fn lemma_distance_triangle(a: Seq<int>, b: Seq<int>, c: Seq<int>)
    requires
        a.len() == b.len() && a.len() == c.len(),
    ensures
        sqrt_floor(dist_sq(a, c)) <= sqrt_floor(dist_sq(a, b)) + sqrt_floor(dist_sq(b, c)) + 1,
{
    let dab = dist_sq(a, b);
    let dbc = dist_sq(b, c);
    let dac = dist_sq(a, c);
    let u = seq_diff(a, b);
    let v = seq_diff(b, c);
    let s = sum_prod(u, v);
    lemma_dist_sq_split(a, b, c);
    lemma_cauchy_schwarz(u, v);
    lemma_sum_sq_nonneg(u);
    lemma_sum_sq_nonneg(v);
    lemma_sum_sq_nonneg(seq_diff(a, c));
    lemma_sqrt_floor_exists(dab);
    lemma_sqrt_floor_exists(dbc);
    lemma_sqrt_floor_exists(dac);
    let sa = sqrt_floor(dab);
    let sb = sqrt_floor(dbc);
    let sc = sqrt_floor(dac);
    assert(s < (sa + 1) * (sb + 1)) by (nonlinear_arith)
        requires
            s * s <= dab * dbc,
            dab < (sa + 1) * (sa + 1),
            dbc < (sb + 1) * (sb + 1),
            0 <= dab,
            0 <= dbc,
            0 <= sa,
            0 <= sb,
    ;
    assert(dac < (sa + sb + 2) * (sa + sb + 2)) by (nonlinear_arith)
        requires
            dac == dab + 2 * s + dbc,
            s < (sa + 1) * (sb + 1),
            dab < (sa + 1) * (sa + 1),
            dbc < (sb + 1) * (sb + 1),
            0 <= sa,
            0 <= sb,
    ;
    assert(sc <= sa + sb + 1) by (nonlinear_arith)
        requires
            sc * sc <= dac,
            dac < (sa + sb + 2) * (sa + sb + 2),
            0 <= sc,
            0 <= sa,
            0 <= sb,
    ;
}

/// The distance between two points is symmetric, and a point is at distance
/// zero from itself: so is the squared distance, and so is the rounded
/// distance that `pythag` returns.
pub proof fn lemma_distance_symmetric(a: Seq<int>, b: Seq<int>)
    requires
        a.len() == b.len(),
    ensures
        dist_sq(a, b) == dist_sq(b, a),
        sqrt_floor(dist_sq(a, b)) == sqrt_floor(dist_sq(b, a)),
        dist_sq(a, a) == 0,
        sqrt_floor(dist_sq(a, a)) == 0,
{
    lemma_dist_sq_symmetric(a, b);
    assert(is_sqrt_floor(0, 0));
    lemma_sqrt_floor_unique(0, 0);
}

/// A waypoint: one point of the path, or a robot position, as a vector of
/// scaled integer coordinates. The number of entries is its dimension.
#[derive(Debug)]
pub struct Waypoint {
    /// The coordinates the waypoint stores.
    pub dimensions: Vec<i64>,
}

impl View for Waypoint {
    type V = Seq<int>;

    open spec fn view(&self) -> Seq<int> {
        self.dimensions@.map_values(|c: i64| c as int)
    }
}

impl Clone for Waypoint {
    fn clone(&self) -> (r: Self)
        ensures
            r@ == self@,
            r.dimensions@ == self.dimensions@,
    {
        let mut coords: Vec<i64> = Vec::new();
        let mut i: usize = 0;
        while i < self.dimensions.len()
            invariant
                0 <= i <= self.dimensions.len(),
                coords@ == self.dimensions@.take(i as int),
            decreases self.dimensions.len() - i,
        {
            coords.push(self.dimensions[i]);
            assert(coords@ =~= self.dimensions@.take(i as int + 1));
            i = i + 1;
        }
        assert(coords@ =~= self.dimensions@);
        let r = Waypoint { dimensions: coords };
        assert(r@ =~= self@);
        r
    }
}

impl PartialEq for Waypoint {
    fn eq(&self, other: &Self) -> (r: bool) {
        if self.dimensions.len() != other.dimensions.len() {
            proof {
                assert(self.dimensions@ != other.dimensions@);
            }
            return false;
        }
        let mut i: usize = 0;
        while i < self.dimensions.len()
            invariant
                0 <= i <= self.dimensions.len(),
                self.dimensions.len() == other.dimensions.len(),
                forall|k: int| 0 <= k < i ==> self.dimensions@[k] == other.dimensions@[k],
            decreases self.dimensions.len() - i,
        {
            if self.dimensions[i] != other.dimensions[i] {
                proof {
                    assert(self.dimensions@ != other.dimensions@);
                }
                return false;
            }
            i = i + 1;
        }
        proof {
            assert(self.dimensions@ =~= other.dimensions@);
        }
        true
    }
}

impl vstd::std_specs::cmp::PartialEqSpecImpl for Waypoint {
    open spec fn obeys_eq_spec() -> bool {
        true
    }

    open spec fn eq_spec(&self, other: &Self) -> bool {
        self.dimensions@ == other.dimensions@
    }
}

impl Waypoint {
    /// All coordinates within `COORD_LIMIT` in magnitude.
    pub open spec fn bounded_spec(&self) -> bool {
        bounded(self@)
    }

    /// The all-zero waypoint of the given dimension: an additive identity,
    /// useful as a filler value.
    pub fn zero(dim: usize) -> (r: Waypoint)
        ensures
            r@ =~= Seq::new(dim as nat, |i: int| 0int),
            r@.len() == dim,
            r.bounded_spec(),
    {
        let mut coords: Vec<i64> = Vec::new();
        let mut i: usize = 0;
        while i < dim
            invariant
                0 <= i <= dim,
                coords@.len() == i,
                forall|k: int| 0 <= k < i ==> coords@[k] == 0i64,
            decreases dim - i,
        {
            coords.push(0);
            i = i + 1;
        }
        let r = Waypoint { dimensions: coords };
        assert(r@ =~= Seq::new(dim as nat, |i: int| 0int));
        r
    }

    /// The Euclidean distance between two waypoints, rounded down to an
    /// integer: the floor of the square root of the squared distance.
    pub fn pythag(&self, rhs: &Waypoint) -> (r: i64)
        requires
            self@.len() == rhs@.len(),
            self@.len() <= DIM_LIMIT,
            self.bounded_spec(),
            rhs.bounded_spec(),
        ensures
            r as int == sqrt_floor(dist_sq(self@, rhs@)),
            is_sqrt_floor(dist_sq(self@, rhs@), r as int),
            0 <= r,
    {
        let d = dist_sq_exec(self, rhs);
        let r = isqrt_u128(d as u128);
        proof {
            assert(is_sqrt_floor(d as int, r as int));
            assert((r as int) * (r as int) <= 0x1_0000_0000_0000_0000_0000_0000_0000);
            assert(r as int <= d as int) by (nonlinear_arith)
                requires
                    0 <= r as int,
                    (r as int) * (r as int) <= d as int,
            ;
        }
        r as i64
    }
}

/// The squared Euclidean distance between two waypoints, computed exactly.
pub(crate) fn dist_sq_exec(a: &Waypoint, b: &Waypoint) -> (r: i128)
    requires
        a@.len() == b@.len(),
        a@.len() <= DIM_LIMIT,
        a.bounded_spec(),
        b.bounded_spec(),
    ensures
        r == dist_sq(a@, b@),
        0 <= r <= (a@.len() as int) * 4_000_000_000_000,
{
    let ghost d = seq_diff(a@, b@);
    let n = a.dimensions.len();
    let mut acc: i128 = 0;
    let mut i: usize = 0;
    while i < n
        invariant
            0 <= i <= n,
            n == a@.len() == b@.len(),
            n <= DIM_LIMIT,
            a.bounded_spec(),
            b.bounded_spec(),
            d == seq_diff(a@, b@),
            acc == sum_prod(d.take(i as int), d.take(i as int)),
            0 <= acc <= (i as int) * 4_000_000_000_000,
        decreases n - i,
    {
        let di = (a.dimensions[i] as i128) - (b.dimensions[i] as i128);
        proof {
            assert(a@[i as int] == a.dimensions@[i as int] as int);
            assert(b@[i as int] == b.dimensions@[i as int] as int);
            assert(d[i as int] == di as int);
            assert(0 <= di * di <= 4_000_000_000_000) by (nonlinear_arith)
                requires
                    -2_000_000 <= di <= 2_000_000,
            ;
            assert(d.take(i as int + 1) =~= d.take(i as int).push(d[i as int]));
            lemma_sum_prod_push(d.take(i as int), d.take(i as int), d[i as int], d[i as int]);
        }
        acc = acc + di * di;
        i = i + 1;
    }
    proof {
        assert(d.take(n as int) =~= d);
    }
    acc
}

/// Sum over `n` of `(p_n - s_n) * (q_n - p_n)`: half the linear coefficient of
/// the lookahead circle intersection quadratic.
pub(crate) fn cross_sum_exec(p: &Waypoint, s: &Waypoint, q: &Waypoint) -> (r: i128)
    requires
        p@.len() == s@.len() && p@.len() == q@.len(),
        p@.len() <= DIM_LIMIT,
        p.bounded_spec(),
        s.bounded_spec(),
        q.bounded_spec(),
    ensures
        r == sum_prod(seq_diff(p@, s@), seq_diff(q@, p@)),
        -(p@.len() as int) * 4_000_000_000_000 <= r <= (p@.len() as int) * 4_000_000_000_000,
{
    let ghost u = seq_diff(p@, s@);
    let ghost v = seq_diff(q@, p@);
    let n = p.dimensions.len();
    let mut acc: i128 = 0;
    let mut i: usize = 0;
    while i < n
        invariant
            0 <= i <= n,
            n == p@.len() == s@.len() == q@.len(),
            n <= DIM_LIMIT,
            p.bounded_spec(),
            s.bounded_spec(),
            q.bounded_spec(),
            u == seq_diff(p@, s@),
            v == seq_diff(q@, p@),
            acc == sum_prod(u.take(i as int), v.take(i as int)),
            -(i as int) * 4_000_000_000_000 <= acc <= (i as int) * 4_000_000_000_000,
        decreases n - i,
    {
        let ui = (p.dimensions[i] as i128) - (s.dimensions[i] as i128);
        let vi = (q.dimensions[i] as i128) - (p.dimensions[i] as i128);
        proof {
            assert(u[i as int] == ui as int);
            assert(v[i as int] == vi as int);
            assert(-4_000_000_000_000 <= ui * vi <= 4_000_000_000_000) by (nonlinear_arith)
                requires
                    -2_000_000 <= ui <= 2_000_000,
                    -2_000_000 <= vi <= 2_000_000,
            ;
            assert(u.take(i as int + 1) =~= u.take(i as int).push(u[i as int]));
            assert(v.take(i as int + 1) =~= v.take(i as int).push(v[i as int]));
            lemma_sum_prod_push(u.take(i as int), v.take(i as int), u[i as int], v[i as int]);
        }
        acc = acc + ui * vi;
        i = i + 1;
    }
    proof {
        assert(u.take(n as int) =~= u);
        assert(v.take(n as int) =~= v);
    }
    acc
}

} // verus!
