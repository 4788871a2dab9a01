//! Exact integer linear algebra in three dimensions.
//!
//! Points of the plane are handled in homogeneous coordinates `(x, y, w)` with
//! `w > 0`, standing for the rational point `(x / w, y / w)`; an oriented line
//! `a·X + b·Y + c ≤ 0` is the triple `(a, b, c)`. Incidence and orientation are
//! then signs of dot products and determinants, and every statement below is a
//! polynomial identity or a sign rule over the integers.

use vstd::prelude::*;

verus! {

/// A vector of three mathematical integers: a point or a line of the plane.
pub struct V3 {
    pub x: int,
    pub y: int,
    pub w: int,
}

pub open spec fn dot(u: V3, v: V3) -> int {
    u.x * v.x + u.y * v.y + u.w * v.w
}

pub open spec fn cross(u: V3, v: V3) -> V3 {
    V3 { x: u.y * v.w - u.w * v.y, y: u.w * v.x - u.x * v.w, w: u.x * v.y - u.y * v.x }
}

/// The determinant of the matrix with rows `u`, `v`, `t`.
pub open spec fn det(u: V3, v: V3, t: V3) -> int {
    u.x * v.y * t.w - u.x * v.w * t.y + u.y * v.w * t.x - u.y * v.x * t.w + u.w * v.x * t.y - u.w
        * v.y * t.x
}

/// The third unit vector: the line at infinity, or the functional that reads `w`.
pub open spec fn unit_w() -> V3 {
    V3 { x: 0, y: 0, w: 1 }
}

proof fn lemma_scale_six(k: int, a: int, b: int, c: int, d: int, e: int, f: int)
    by (nonlinear_arith)
    ensures
        k * (a - b + c - d + e - f) == k * a - k * b + k * c - k * d + k * e - k * f,
{
}

proof fn lemma_dependent_x(p: V3, q: V3, r: V3, s: V3)
    ensures
        p.x * det(q, r, s) - q.x * det(p, r, s) + r.x * det(p, q, s) - s.x * det(p, q, r) == 0,
{
    lemma_scale_six(p.x, q.x * r.y * s.w, q.x * r.w * s.y, q.y * r.w * s.x, q.y * r.x * s.w, q.w * r.x * s.y, q.w * r.y * s.x);
    lemma_scale_six(q.x, p.x * r.y * s.w, p.x * r.w * s.y, p.y * r.w * s.x, p.y * r.x * s.w, p.w * r.x * s.y, p.w * r.y * s.x);
    lemma_scale_six(r.x, p.x * q.y * s.w, p.x * q.w * s.y, p.y * q.w * s.x, p.y * q.x * s.w, p.w * q.x * s.y, p.w * q.y * s.x);
    lemma_scale_six(s.x, p.x * q.y * r.w, p.x * q.w * r.y, p.y * q.w * r.x, p.y * q.x * r.w, p.w * q.x * r.y, p.w * q.y * r.x);
    assert(p.x * (q.x * r.y * s.w) == q.x * (p.x * r.y * s.w)) by (nonlinear_arith);
    assert(p.x * (q.x * r.w * s.y) == q.x * (p.x * r.w * s.y)) by (nonlinear_arith);
    assert(p.x * (q.y * r.w * s.x) == s.x * (p.x * q.y * r.w)) by (nonlinear_arith);
    assert(p.x * (q.y * r.x * s.w) == r.x * (p.x * q.y * s.w)) by (nonlinear_arith);
    assert(p.x * (q.w * r.x * s.y) == r.x * (p.x * q.w * s.y)) by (nonlinear_arith);
    assert(p.x * (q.w * r.y * s.x) == s.x * (p.x * q.w * r.y)) by (nonlinear_arith);
    assert(q.x * (p.y * r.w * s.x) == s.x * (p.y * q.x * r.w)) by (nonlinear_arith);
    assert(q.x * (p.y * r.x * s.w) == r.x * (p.y * q.x * s.w)) by (nonlinear_arith);
    assert(q.x * (p.w * r.x * s.y) == r.x * (p.w * q.x * s.y)) by (nonlinear_arith);
    assert(q.x * (p.w * r.y * s.x) == s.x * (p.w * q.x * r.y)) by (nonlinear_arith);
    assert(r.x * (p.y * q.w * s.x) == s.x * (p.y * q.w * r.x)) by (nonlinear_arith);
    assert(r.x * (p.w * q.y * s.x) == s.x * (p.w * q.y * r.x)) by (nonlinear_arith);
}

proof fn lemma_dependent_y(p: V3, q: V3, r: V3, s: V3)
    ensures
        p.y * det(q, r, s) - q.y * det(p, r, s) + r.y * det(p, q, s) - s.y * det(p, q, r) == 0,
{
    lemma_scale_six(p.y, q.x * r.y * s.w, q.x * r.w * s.y, q.y * r.w * s.x, q.y * r.x * s.w, q.w * r.x * s.y, q.w * r.y * s.x);
    lemma_scale_six(q.y, p.x * r.y * s.w, p.x * r.w * s.y, p.y * r.w * s.x, p.y * r.x * s.w, p.w * r.x * s.y, p.w * r.y * s.x);
    lemma_scale_six(r.y, p.x * q.y * s.w, p.x * q.w * s.y, p.y * q.w * s.x, p.y * q.x * s.w, p.w * q.x * s.y, p.w * q.y * s.x);
    lemma_scale_six(s.y, p.x * q.y * r.w, p.x * q.w * r.y, p.y * q.w * r.x, p.y * q.x * r.w, p.w * q.x * r.y, p.w * q.y * r.x);
    assert(p.y * (q.x * r.y * s.w) == r.y * (p.y * q.x * s.w)) by (nonlinear_arith);
    assert(p.y * (q.x * r.w * s.y) == s.y * (p.y * q.x * r.w)) by (nonlinear_arith);
    assert(p.y * (q.y * r.w * s.x) == q.y * (p.y * r.w * s.x)) by (nonlinear_arith);
    assert(p.y * (q.y * r.x * s.w) == q.y * (p.y * r.x * s.w)) by (nonlinear_arith);
    assert(p.y * (q.w * r.x * s.y) == s.y * (p.y * q.w * r.x)) by (nonlinear_arith);
    assert(p.y * (q.w * r.y * s.x) == r.y * (p.y * q.w * s.x)) by (nonlinear_arith);
    assert(q.y * (p.x * r.y * s.w) == r.y * (p.x * q.y * s.w)) by (nonlinear_arith);
    assert(q.y * (p.x * r.w * s.y) == s.y * (p.x * q.y * r.w)) by (nonlinear_arith);
    assert(q.y * (p.w * r.x * s.y) == s.y * (p.w * q.y * r.x)) by (nonlinear_arith);
    assert(q.y * (p.w * r.y * s.x) == r.y * (p.w * q.y * s.x)) by (nonlinear_arith);
    assert(r.y * (p.x * q.w * s.y) == s.y * (p.x * q.w * r.y)) by (nonlinear_arith);
    assert(r.y * (p.w * q.x * s.y) == s.y * (p.w * q.x * r.y)) by (nonlinear_arith);
}

proof fn lemma_dependent_w(p: V3, q: V3, r: V3, s: V3)
    ensures
        p.w * det(q, r, s) - q.w * det(p, r, s) + r.w * det(p, q, s) - s.w * det(p, q, r) == 0,
{
    lemma_scale_six(p.w, q.x * r.y * s.w, q.x * r.w * s.y, q.y * r.w * s.x, q.y * r.x * s.w, q.w * r.x * s.y, q.w * r.y * s.x);
    lemma_scale_six(q.w, p.x * r.y * s.w, p.x * r.w * s.y, p.y * r.w * s.x, p.y * r.x * s.w, p.w * r.x * s.y, p.w * r.y * s.x);
    lemma_scale_six(r.w, p.x * q.y * s.w, p.x * q.w * s.y, p.y * q.w * s.x, p.y * q.x * s.w, p.w * q.x * s.y, p.w * q.y * s.x);
    lemma_scale_six(s.w, p.x * q.y * r.w, p.x * q.w * r.y, p.y * q.w * r.x, p.y * q.x * r.w, p.w * q.x * r.y, p.w * q.y * r.x);
    assert(p.w * (q.x * r.y * s.w) == s.w * (p.w * q.x * r.y)) by (nonlinear_arith);
    assert(p.w * (q.x * r.w * s.y) == r.w * (p.w * q.x * s.y)) by (nonlinear_arith);
    assert(p.w * (q.y * r.w * s.x) == r.w * (p.w * q.y * s.x)) by (nonlinear_arith);
    assert(p.w * (q.y * r.x * s.w) == s.w * (p.w * q.y * r.x)) by (nonlinear_arith);
    assert(p.w * (q.w * r.x * s.y) == q.w * (p.w * r.x * s.y)) by (nonlinear_arith);
    assert(p.w * (q.w * r.y * s.x) == q.w * (p.w * r.y * s.x)) by (nonlinear_arith);
    assert(q.w * (p.x * r.y * s.w) == s.w * (p.x * q.w * r.y)) by (nonlinear_arith);
    assert(q.w * (p.x * r.w * s.y) == r.w * (p.x * q.w * s.y)) by (nonlinear_arith);
    assert(q.w * (p.y * r.w * s.x) == r.w * (p.y * q.w * s.x)) by (nonlinear_arith);
    assert(q.w * (p.y * r.x * s.w) == s.w * (p.y * q.w * r.x)) by (nonlinear_arith);
    assert(r.w * (p.x * q.y * s.w) == s.w * (p.x * q.y * r.w)) by (nonlinear_arith);
    assert(r.w * (p.y * q.x * s.w) == s.w * (p.y * q.x * r.w)) by (nonlinear_arith);
}

/// Among four vectors of three-space one is a combination of the others; the
/// coefficients are the four determinants.
pub proof fn lemma_dependent(p: V3, q: V3, r: V3, s: V3)
    ensures
        p.x * det(q, r, s) - q.x * det(p, r, s) + r.x * det(p, q, s) - s.x * det(p, q, r) == 0,
        p.y * det(q, r, s) - q.y * det(p, r, s) + r.y * det(p, q, s) - s.y * det(p, q, r) == 0,
        p.w * det(q, r, s) - q.w * det(p, r, s) + r.w * det(p, q, s) - s.w * det(p, q, r) == 0,
{
    lemma_dependent_x(p, q, r, s);
    lemma_dependent_y(p, q, r, s);
    lemma_dependent_w(p, q, r, s);
}

/// The determinant is the scalar triple product, in both groupings.
pub proof fn lemma_det_is_triple(u: V3, v: V3, t: V3)
    ensures
        dot(u, cross(v, t)) == det(u, v, t),
        dot(cross(u, v), t) == det(u, v, t),
{
    assert(u.x * (v.y * t.w - v.w * t.y) == u.x * v.y * t.w - u.x * v.w * t.y) by (nonlinear_arith);
    assert(u.y * (v.w * t.x - v.x * t.w) == u.y * v.w * t.x - u.y * v.x * t.w) by (nonlinear_arith);
    assert(u.w * (v.x * t.y - v.y * t.x) == u.w * v.x * t.y - u.w * v.y * t.x) by (nonlinear_arith);
    assert((u.y * v.w - u.w * v.y) * t.x == u.y * v.w * t.x - u.w * v.y * t.x) by (nonlinear_arith);
    assert((u.w * v.x - u.x * v.w) * t.y == u.w * v.x * t.y - u.x * v.w * t.y) by (nonlinear_arith);
    assert((u.x * v.y - u.y * v.x) * t.w == u.x * v.y * t.w - u.y * v.x * t.w) by (nonlinear_arith);
}

/// Swapping two rows negates the determinant; rotating the rows keeps it.
pub proof fn lemma_det_swap(u: V3, v: V3, t: V3)
    ensures
        det(v, u, t) == -det(u, v, t),
        det(u, t, v) == -det(u, v, t),
        det(t, v, u) == -det(u, v, t),
        det(v, t, u) == det(u, v, t),
        det(t, u, v) == det(u, v, t),
{
    assert(u.x * v.y * t.w == v.y * u.x * t.w && u.x * v.y * t.w == u.x * t.w * v.y && u.x * v.y
        * t.w == t.w * v.y * u.x && u.x * v.y * t.w == v.y * t.w * u.x && u.x * v.y * t.w == t.w
        * u.x * v.y) by (nonlinear_arith);
    assert(u.x * v.w * t.y == v.w * u.x * t.y && u.x * v.w * t.y == u.x * t.y * v.w && u.x * v.w
        * t.y == t.y * v.w * u.x && u.x * v.w * t.y == v.w * t.y * u.x && u.x * v.w * t.y == t.y
        * u.x * v.w) by (nonlinear_arith);
    assert(u.y * v.w * t.x == v.w * u.y * t.x && u.y * v.w * t.x == u.y * t.x * v.w && u.y * v.w
        * t.x == t.x * v.w * u.y && u.y * v.w * t.x == v.w * t.x * u.y && u.y * v.w * t.x == t.x
        * u.y * v.w) by (nonlinear_arith);
    assert(u.y * v.x * t.w == v.x * u.y * t.w && u.y * v.x * t.w == u.y * t.w * v.x && u.y * v.x
        * t.w == t.w * v.x * u.y && u.y * v.x * t.w == v.x * t.w * u.y && u.y * v.x * t.w == t.w
        * u.y * v.x) by (nonlinear_arith);
    assert(u.w * v.x * t.y == v.x * u.w * t.y && u.w * v.x * t.y == u.w * t.y * v.x && u.w * v.x
        * t.y == t.y * v.x * u.w && u.w * v.x * t.y == v.x * t.y * u.w && u.w * v.x * t.y == t.y
        * u.w * v.x) by (nonlinear_arith);
    assert(u.w * v.y * t.x == v.y * u.w * t.x && u.w * v.y * t.x == u.w * t.x * v.y && u.w * v.y
        * t.x == t.x * v.y * u.w && u.w * v.y * t.x == v.y * t.x * u.w && u.w * v.y * t.x == t.x
        * u.w * v.y) by (nonlinear_arith);
}

/// A determinant with a repeated row vanishes.
pub proof fn lemma_det_repeat(u: V3, v: V3)
    ensures
        det(u, u, v) == 0,
        det(u, v, u) == 0,
        det(v, u, u) == 0,
{
    lemma_det_swap(u, u, v);
    lemma_det_swap(u, v, u);
    lemma_det_swap(v, u, u);
}

proof fn lemma_scale_four(k: int, a: int, b: int, c: int, d: int)
    by (nonlinear_arith)
    ensures
        k * (a - b + c - d) == k * a - k * b + k * c - k * d,
{
}

proof fn lemma_assoc(a: int, b: int, c: int)
    by (nonlinear_arith)
    ensures
        a * (b * c) == (a * b) * c,
{
}

proof fn lemma_sum_three_times(a: int, b: int, c: int, k: int)
    by (nonlinear_arith)
    ensures
        (a + b + c) * k == a * k + b * k + c * k,
{
}

proof fn lemma_combine(k: V3, p: V3, q: V3, r: V3, s: V3, a: int, b: int, c: int, d: int)
    ensures
        k.x * (p.x * a - q.x * b + r.x * c - s.x * d) + k.y * (p.y * a - q.y * b + r.y * c - s.y * d)
            + k.w * (p.w * a - q.w * b + r.w * c - s.w * d) == dot(k, p) * a - dot(k, q) * b + dot(
            k,
            r,
        ) * c - dot(k, s) * d,
{
    lemma_scale_four(k.x, p.x * a, q.x * b, r.x * c, s.x * d);
    lemma_scale_four(k.y, p.y * a, q.y * b, r.y * c, s.y * d);
    lemma_scale_four(k.w, p.w * a, q.w * b, r.w * c, s.w * d);
    lemma_assoc(k.x, p.x, a);
    lemma_assoc(k.y, p.y, a);
    lemma_assoc(k.w, p.w, a);
    lemma_assoc(k.x, q.x, b);
    lemma_assoc(k.y, q.y, b);
    lemma_assoc(k.w, q.w, b);
    lemma_assoc(k.x, r.x, c);
    lemma_assoc(k.y, r.y, c);
    lemma_assoc(k.w, r.w, c);
    lemma_assoc(k.x, s.x, d);
    lemma_assoc(k.y, s.y, d);
    lemma_assoc(k.w, s.w, d);
    lemma_sum_three_times(k.x * p.x, k.y * p.y, k.w * p.w, a);
    lemma_sum_three_times(k.x * q.x, k.y * q.y, k.w * q.w, b);
    lemma_sum_three_times(k.x * r.x, k.y * r.y, k.w * r.w, c);
    lemma_sum_three_times(k.x * s.x, k.y * s.y, k.w * s.w, d);
}

/// Applying a functional `k` to the dependency among four vectors.
pub proof fn lemma_dependent_dot(k: V3, p: V3, q: V3, r: V3, s: V3)
    ensures
        dot(k, p) * det(q, r, s) - dot(k, q) * det(p, r, s) + dot(k, r) * det(p, q, s) - dot(k, s)
            * det(p, q, r) == 0,
{
    lemma_dependent(p, q, r, s);
    lemma_combine(k, p, q, r, s, det(q, r, s), det(p, r, s), det(p, q, s), det(p, q, r));
}

/// The three-term Grassmann-Pluecker relation among five vectors.
pub proof fn lemma_pluecker(p: V3, a: V3, b: V3, c: V3, d: V3)
    ensures
        det(p, a, b) * det(p, c, d) - det(p, a, c) * det(p, b, d) + det(p, a, d) * det(p, b, c) == 0,
{
    let k = cross(p, a);
    lemma_dependent_dot(k, p, b, c, d);
    lemma_det_is_triple(p, a, p);
    lemma_det_is_triple(p, a, b);
    lemma_det_is_triple(p, a, c);
    lemma_det_is_triple(p, a, d);
    lemma_det_repeat(p, a);
    assert(dot(k, p) == 0);
    assert(dot(k, p) * det(b, c, d) == 0);
    assert(det(p, a, b) * det(p, c, d) == det(p, c, d) * det(p, a, b)) by (nonlinear_arith);
}

/// The planar cross product of the first two coordinates: positive when `b`
/// lies counter-clockwise of `a` by less than a half turn.
pub open spec fn turn(a: V3, b: V3) -> int {
    a.x * b.y - a.y * b.x
}

pub proof fn lemma_turn_is_det(a: V3, b: V3)
    ensures
        turn(a, b) == cross(a, b).w,
        turn(a, b) == det(a, b, unit_w()),
        turn(a, b) == det(unit_w(), a, b),
        turn(b, a) == -turn(a, b),
{
    lemma_det_swap(a, b, unit_w());
    assert(a.x * b.y == b.y * a.x) by (nonlinear_arith);
    assert(a.y * b.x == b.x * a.y) by (nonlinear_arith);
}

pub proof fn lemma_dot_symmetric(u: V3, v: V3)
    ensures
        dot(u, v) == dot(v, u),
{
    assert(u.x * v.x == v.x * u.x) by (nonlinear_arith);
    assert(u.y * v.y == v.y * u.y) by (nonlinear_arith);
    assert(u.w * v.w == v.w * u.w) by (nonlinear_arith);
}

/// Turning is transitive among directions on one side of a common direction `h`.
pub proof fn lemma_turn_transitive(u: V3, v: V3, t: V3, h: V3)
    requires
        turn(u, h) > 0,
        turn(v, h) > 0,
        turn(t, h) > 0,
        turn(u, v) > 0,
        turn(v, t) > 0,
    ensures
        turn(u, t) > 0,
{
    lemma_pluecker(unit_w(), u, v, t, h);
    lemma_turn_is_det(u, v);
    lemma_turn_is_det(t, h);
    lemma_turn_is_det(u, t);
    lemma_turn_is_det(v, h);
    lemma_turn_is_det(u, h);
    lemma_turn_is_det(v, t);
    let a = turn(u, v);
    let b = turn(t, h);
    let c = turn(u, t);
    let d = turn(v, h);
    let e = turn(u, h);
    let g = turn(v, t);
    assert(a * b - c * d + e * g == 0);
    assert(c > 0) by (nonlinear_arith)
        requires
            a * b - c * d + e * g == 0,
            a > 0,
            b > 0,
            d > 0,
            e > 0,
            g > 0,
    ;
}

} // verus!
