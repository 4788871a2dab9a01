//! Convex polygons as cyclic lists of oriented lines.
//!
//! A polygon is the sequence of its edge lines in counter-clockwise order; the
//! closed half-plane of a line `l` is `dot(l, z) <= 0`. Vertex `k` is the
//! meeting point of line `k` and its successor. The central fact is
//! [`lemma_hull`]: a linear functional that is non-positive at every vertex is
//! non-positive on the whole polygon.

use vstd::prelude::*;
use crate::algebra::{V3, dot, cross, det, turn, unit_w};
use crate::algebra::{
    lemma_dependent,
    lemma_dependent_dot,
    lemma_det_is_triple,
    lemma_dot_symmetric,
    lemma_turn_is_det,
    lemma_turn_transitive,
};

verus! {

/// The index after `k` on a cycle of length `m`.
pub open spec fn succ(k: int, m: int) -> int {
    if k + 1 >= m {
        0
    } else {
        k + 1
    }
}

/// The index before `k` on a cycle of length `m`.
pub open spec fn pred(k: int, m: int) -> int {
    if k <= 0 {
        m - 1
    } else {
        k - 1
    }
}

/// Vertex `k`: where line `k` meets the next line, in homogeneous coordinates.
pub open spec fn vertex(p: Seq<V3>, k: int) -> V3 {
    cross(p[k], p[succ(k, p.len() as int)])
}

/// Every line turns strictly left into its successor, so every vertex is a
/// proper point (`w > 0`).
pub open spec fn turns_left(p: Seq<V3>) -> bool {
    forall|k: int| 0 <= k < p.len() ==> (#[trigger] vertex(p, k)).w > 0
}

/// Every vertex lies in the closed half-plane of every line.
pub open spec fn vertices_inside(p: Seq<V3>) -> bool {
    forall|j: int, k: int|
        0 <= j < p.len() && 0 <= k < p.len() ==> dot(#[trigger] p[j], #[trigger] vertex(p, k)) <= 0
}

/// A convex polygon, given counter-clockwise.
pub open spec fn convex(p: Seq<V3>) -> bool {
    p.len() >= 3 && turns_left(p) && vertices_inside(p)
}

/// Every vertex lies strictly inside the half-plane of every line but the two
/// that meet in it: the corners are distinct, and every line carries an edge.
pub open spec fn proper(p: Seq<V3>) -> bool {
    forall|j: int, k: int|
        0 <= j < p.len() && 0 <= k < p.len() && j != k && j != succ(k, p.len() as int) ==> dot(
            #[trigger] p[j],
            #[trigger] vertex(p, k),
        ) < 0
}

/// The point `z` lies in the closed half-plane of every line of `p`.
pub open spec fn contains(p: Seq<V3>, z: V3) -> bool {
    forall|k: int| 0 <= k < p.len() ==> dot(#[trigger] p[k], z) <= 0
}

/// The direction of `f` lies in the cone between the normals of line `k` and its successor.
pub open spec fn in_cone(p: Seq<V3>, f: V3, k: int) -> bool {
    turn(p[k], f) >= 0 && turn(f, p[succ(k, p.len() as int)]) >= 0
}

proof fn lemma_all_positive(p: Seq<V3>, f: V3, n: int)
    requires
        0 <= n < p.len(),
        forall|k: int| 0 <= k < p.len() ==> !in_cone(p, f, k),
        turn(p[0], f) >= 0,
    ensures
        turn(p[n], f) > 0 || n == 0,
        turn(p[n], f) >= 0,
    decreases n,
{
    if n > 0 {
        lemma_all_positive(p, f, n - 1);
        assert(!in_cone(p, f, n - 1));
        lemma_turn_is_det(f, p[n]);
    }
}

proof fn lemma_all_negative(p: Seq<V3>, f: V3, n: int)
    requires
        0 <= n < p.len(),
        forall|k: int| 0 <= k < p.len() ==> !in_cone(p, f, k),
        turn(p[0], f) < 0,
    ensures
        turn(p[n], f) < 0,
    decreases p.len() - n,
{
    if n > 0 {
        if n + 1 < p.len() {
            lemma_all_negative(p, f, n + 1);
        }
        assert(!in_cone(p, f, n));
        lemma_turn_is_det(f, p[succ(n, p.len() as int)]);
    }
}

proof fn lemma_chain_turns(p: Seq<V3>, h: V3, n: int)
    requires
        1 <= n < p.len(),
        turns_left(p),
        forall|k: int| 0 <= k < p.len() ==> turn(#[trigger] p[k], h) > 0,
    ensures
        turn(p[0], p[n]) > 0,
    decreases n,
{
    assert(vertex(p, n - 1).w > 0);
    lemma_turn_is_det(p[n - 1], p[n]);
    if n > 1 {
        lemma_chain_turns(p, h, n - 1);
        lemma_turn_transitive(p[0], p[n - 1], p[n], h);
    }
}

/// The normals of a left-turning cycle do not all lie strictly on one side of a direction.
proof fn lemma_not_one_sided(p: Seq<V3>, h: V3)
    requires
        p.len() >= 2,
        turns_left(p),
    ensures
        exists|k: int| 0 <= k < p.len() && turn(#[trigger] p[k], h) <= 0,
{
    if forall|k: int| 0 <= k < p.len() ==> turn(#[trigger] p[k], h) > 0 {
        let m = p.len() as int;
        lemma_chain_turns(p, h, m - 1);
        assert(vertex(p, m - 1).w > 0);
        lemma_turn_is_det(p[m - 1], p[0]);
        lemma_turn_is_det(p[0], p[m - 1]);
        assert(false);
    }
}

/// Some pair of consecutive normals has the direction of `f` between them.
pub proof fn lemma_cone_exists(p: Seq<V3>, f: V3) -> (k: int)
    requires
        p.len() >= 2,
        turns_left(p),
    ensures
        0 <= k < p.len(),
        in_cone(p, f, k),
{
    if exists|k: int| 0 <= k < p.len() && in_cone(p, f, k) {
        choose|k: int| 0 <= k < p.len() && in_cone(p, f, k)
    } else {
        let m = p.len() as int;
        if turn(p[0], f) >= 0 {
            assert(!in_cone(p, f, m - 1));
            lemma_all_positive(p, f, m - 1);
            lemma_turn_is_det(f, p[0]);
            assert forall|k: int| 0 <= k < p.len() implies turn(#[trigger] p[k], f) > 0 by {
                lemma_all_positive(p, f, k);
            }
            lemma_not_one_sided(p, f);
        } else {
            let h = V3 { x: -f.x, y: -f.y, w: f.w };
            assert forall|k: int| 0 <= k < p.len() implies turn(#[trigger] p[k], h) > 0 by {
                lemma_all_negative_any(p, f, k);
                assert(p[k].x * (-f.y) - p[k].y * (-f.x) == -(p[k].x * f.y - p[k].y * f.x))
                    by (nonlinear_arith);
            }
            lemma_not_one_sided(p, h);
        }
        0
    }
}

proof fn lemma_all_negative_any(p: Seq<V3>, f: V3, n: int)
    requires
        0 <= n < p.len(),
        forall|k: int| 0 <= k < p.len() ==> !in_cone(p, f, k),
        turn(p[0], f) < 0,
    ensures
        turn(p[n], f) < 0,
{
    if n > 0 {
        lemma_all_negative(p, f, n);
    }
}

/// A functional `f` written in the basis of two consecutive lines and the
/// line at infinity, and applied to the point `z`.
pub proof fn lemma_cone_split(p: Seq<V3>, f: V3, z: V3, k: int)
    requires
        0 <= k < p.len(),
    ensures
        dot(f, z) * vertex(p, k).w == dot(p[k], z) * turn(f, p[succ(k, p.len() as int)]) + dot(
            p[succ(k, p.len() as int)],
            z,
        ) * turn(p[k], f) + z.w * dot(f, vertex(p, k)),
        f.x * vertex(p, k).w == p[k].x * turn(f, p[succ(k, p.len() as int)]) + p[succ(
            k,
            p.len() as int,
        )].x * turn(p[k], f),
        f.y * vertex(p, k).w == p[k].y * turn(f, p[succ(k, p.len() as int)]) + p[succ(
            k,
            p.len() as int,
        )].y * turn(p[k], f),
{
    let a = p[k];
    let b = p[succ(k, p.len() as int)];
    let e = unit_w();
    lemma_dependent_dot(z, f, a, b, e);
    lemma_dependent(f, a, b, e);
    lemma_turn_is_det(a, b);
    lemma_turn_is_det(f, b);
    lemma_turn_is_det(f, a);
    lemma_turn_is_det(a, f);
    lemma_det_is_triple(f, a, b);
    lemma_dot_symmetric(z, f);
    lemma_dot_symmetric(z, a);
    lemma_dot_symmetric(z, b);
    assert(dot(z, e) == z.w);
    let wk = vertex(p, k).w;
    let g = det(f, a, b);
    let al = turn(f, b);
    let be = turn(a, f);
    assert(dot(f, z) * wk - dot(a, z) * al + dot(b, z) * (-be) - z.w * g == 0);
    assert(dot(b, z) * (-be) == -(dot(b, z) * be)) by (nonlinear_arith);
    assert(f.x * wk - a.x * al + b.x * (-be) - e.x * g == 0);
    assert(f.y * wk - a.y * al + b.y * (-be) - e.y * g == 0);
    assert(b.x * (-be) == -(b.x * be)) by (nonlinear_arith);
    assert(b.y * (-be) == -(b.y * be)) by (nonlinear_arith);
    assert(e.x * g == 0 && e.y * g == 0) by (nonlinear_arith)
        requires
            e.x == 0,
            e.y == 0,
    ;
}

/// A linear functional that is non-positive at every vertex of a left-turning
/// polygon is non-positive at every point of the polygon.
pub proof fn lemma_hull(p: Seq<V3>, f: V3, z: V3)
    requires
        p.len() >= 2,
        turns_left(p),
        contains(p, z),
        z.w > 0,
        forall|k: int| 0 <= k < p.len() ==> dot(f, #[trigger] vertex(p, k)) <= 0,
    ensures
        dot(f, z) <= 0,
{
    let m = p.len() as int;
    let k = lemma_cone_exists(p, f);
    lemma_cone_split(p, f, z, k);
    let wk = vertex(p, k).w;
    assert(wk > 0);
    assert(dot(f, vertex(p, k)) <= 0);
    let g = dot(f, vertex(p, k));
    let za = dot(p[k], z);
    let zb = dot(p[succ(k, m)], z);
    let al = turn(f, p[succ(k, m)]);
    let be = turn(p[k], f);
    let zf = dot(f, z);
    assert(zf <= 0) by (nonlinear_arith)
        requires
            zf * wk == za * al + zb * be + z.w * g,
            wk > 0,
            za <= 0,
            zb <= 0,
            al >= 0,
            be >= 0,
            z.w > 0,
            g <= 0,
    ;
}

/// The point `z` lies strictly inside the half-plane of every line of `p`.
pub open spec fn contains_strictly(p: Seq<V3>, z: V3) -> bool {
    forall|k: int| 0 <= k < p.len() ==> dot(#[trigger] p[k], z) < 0
}

/// A line that every vertex obeys is obeyed strictly in the interior of the polygon.
pub proof fn lemma_hull_strict(p: Seq<V3>, f: V3, z: V3)
    requires
        p.len() >= 2,
        turns_left(p),
        contains_strictly(p, z),
        z.w > 0,
        forall|k: int| 0 <= k < p.len() ==> dot(f, #[trigger] vertex(p, k)) <= 0,
        f.x != 0 || f.y != 0,
    ensures
        dot(f, z) < 0,
{
    let m = p.len() as int;
    let k = lemma_cone_exists(p, f);
    lemma_cone_split(p, f, z, k);
    let wk = vertex(p, k).w;
    assert(wk > 0);
    assert(dot(f, vertex(p, k)) <= 0);
    let g = dot(f, vertex(p, k));
    let a = p[k];
    let b = p[succ(k, m)];
    let za = dot(a, z);
    let zb = dot(b, z);
    assert(za < 0 && zb < 0);
    let al = turn(f, b);
    let be = turn(a, f);
    let zf = dot(f, z);
    assert(zf < 0 || (al == 0 && be == 0)) by (nonlinear_arith)
        requires
            zf * wk == za * al + zb * be + z.w * g,
            wk > 0,
            za < 0,
            zb < 0,
            al >= 0,
            be >= 0,
            z.w > 0,
            g <= 0,
    ;
    if al == 0 && be == 0 {
        assert(f.x == 0) by (nonlinear_arith)
            requires
                f.x * wk == a.x * al + b.x * be,
                al == 0,
                be == 0,
                wk > 0,
        ;
        assert(f.y == 0) by (nonlinear_arith)
            requires
                f.y * wk == a.y * al + b.y * be,
                al == 0,
                be == 0,
                wk > 0,
        ;
    }
}

/// The two homogeneous triples stand for the same point of the plane.
pub open spec fn same_point(u: V3, v: V3) -> bool {
    u.x * v.w == v.x * u.w && u.y * v.w == v.y * u.w
}

/// A point on two lines is their meeting point.
proof fn lemma_on_both_lines(a: V3, b: V3, u: V3)
    requires
        dot(a, u) == 0,
        dot(b, u) == 0,
    ensures
        same_point(cross(a, b), u),
{
    let v = cross(a, b);
    let ax = a.x * u.x;
    let ay = a.y * u.y;
    let aw = a.w * u.w;
    let bx = b.x * u.x;
    let by_ = b.y * u.y;
    let bw = b.w * u.w;
    assert(ax + ay + aw == 0);
    assert(bx + by_ + bw == 0);
    // Eliminate u.y, then u.x, from the two equations.
    assert(b.y * (ax + ay + aw) - a.y * (bx + by_ + bw) == 0) by (nonlinear_arith)
        requires
            ax + ay + aw == 0,
            bx + by_ + bw == 0,
    ;
    assert(b.y * (ax + ay + aw) == b.y * ax + b.y * ay + b.y * aw) by (nonlinear_arith);
    assert(a.y * (bx + by_ + bw) == a.y * bx + a.y * by_ + a.y * bw) by (nonlinear_arith);
    assert(b.y * ay == a.y * by_) by (nonlinear_arith)
        requires
            ay == a.y * u.y,
            by_ == b.y * u.y,
    ;
    assert(b.y * ax - a.y * bx == (a.x * b.y - a.y * b.x) * u.x) by (nonlinear_arith)
        requires
            ax == a.x * u.x,
            bx == b.x * u.x,
    ;
    assert(a.y * bw - b.y * aw == (a.y * b.w - a.w * b.y) * u.w) by (nonlinear_arith)
        requires
            aw == a.w * u.w,
            bw == b.w * u.w,
    ;
    assert(v.w * u.x == v.x * u.w);
    assert(a.x * (bx + by_ + bw) - b.x * (ax + ay + aw) == 0) by (nonlinear_arith)
        requires
            ax + ay + aw == 0,
            bx + by_ + bw == 0,
    ;
    assert(a.x * (bx + by_ + bw) == a.x * bx + a.x * by_ + a.x * bw) by (nonlinear_arith);
    assert(b.x * (ax + ay + aw) == b.x * ax + b.x * ay + b.x * aw) by (nonlinear_arith);
    assert(a.x * bx == b.x * ax) by (nonlinear_arith)
        requires
            ax == a.x * u.x,
            bx == b.x * u.x,
    ;
    assert(a.x * by_ - b.x * ay == (a.x * b.y - a.y * b.x) * u.y) by (nonlinear_arith)
        requires
            ay == a.y * u.y,
            by_ == b.y * u.y,
    ;
    assert(b.x * aw - a.x * bw == (a.w * b.x - a.x * b.w) * u.w) by (nonlinear_arith)
        requires
            aw == a.w * u.w,
            bw == b.w * u.w,
    ;
    assert(v.w * u.y == v.y * u.w);
    assert(v.x * u.w == u.w * v.x && v.y * u.w == u.w * v.y && v.w * u.x == u.x * v.w && v.w
        * u.y == u.y * v.w) by (nonlinear_arith);
}

/// The corners of a convex polygon are determined by the points it holds:
/// every corner of `p` is a corner of any convex polygon `q` that holds the
/// same points.
pub proof fn lemma_corners_determined(p: Seq<V3>, q: Seq<V3>, k: int) -> (j: int)
    requires
        convex(p),
        convex(q),
        0 <= k < p.len(),
        forall|z: V3| z.w > 0 ==> (#[trigger] contains(p, z) <==> contains(q, z)),
    ensures
        0 <= j < q.len(),
        same_point(vertex(p, k), vertex(q, j)),
{
    let m = p.len() as int;
    let a = p[k];
    let b = p[succ(k, m)];
    let v = vertex(p, k);
    let f = V3 { x: a.x + b.x, y: a.y + b.y, w: a.w + b.w };
    assert forall|z: V3| dot(f, z) == dot(a, z) + #[trigger] dot(b, z) by {
        assert((a.x + b.x) * z.x == a.x * z.x + b.x * z.x) by (nonlinear_arith);
        assert((a.y + b.y) * z.y == a.y * z.y + b.y * z.y) by (nonlinear_arith);
        assert((a.w + b.w) * z.w == a.w * z.w + b.w * z.w) by (nonlinear_arith);
    }
    lemma_det_is_triple(a, a, b);
    lemma_det_is_triple(b, a, b);
    crate::algebra::lemma_det_repeat(a, b);
    crate::algebra::lemma_det_repeat(b, a);
    assert(dot(a, v) == 0);
    assert(dot(b, v) == 0);
    assert(dot(f, v) == 0);
    assert(v.w > 0);
    assert forall|l: int| 0 <= l < p.len() implies dot(#[trigger] p[l], v) <= 0 by {
        assert(dot(p[l], vertex(p, k)) <= 0);
    }
    assert(contains(p, v));
    assert(contains(q, v));
    assert forall|t: int| 0 <= t < q.len() implies dot(f, #[trigger] vertex(q, t)) <= 0 by {
        let u = vertex(q, t);
        assert(u.w > 0);
        assert forall|l: int| 0 <= l < q.len() implies dot(#[trigger] q[l], u) <= 0 by {
            assert(dot(q[l], vertex(q, t)) <= 0);
        }
        assert(contains(q, u));
        assert(contains(p, u));
        assert(dot(p[k], u) <= 0);
        assert(dot(p[succ(k, m)], u) <= 0);
        assert(dot(f, u) == dot(a, u) + dot(b, u));
    }
    let j = lemma_cone_exists(q, f);
    lemma_cone_split(q, f, v, j);
    let n = q.len() as int;
    let u = vertex(q, j);
    assert(u.w > 0);
    assert(dot(q[j], v) <= 0);
    assert(dot(q[succ(j, n)], v) <= 0);
    assert(dot(f, u) <= 0);
    let fu = dot(f, u);
    let za = dot(q[j], v);
    let zb = dot(q[succ(j, n)], v);
    let al = turn(f, q[succ(j, n)]);
    let be = turn(q[j], f);
    assert(fu == 0) by (nonlinear_arith)
        requires
            0 == za * al + zb * be + v.w * fu,
            za <= 0,
            zb <= 0,
            al >= 0,
            be >= 0,
            v.w > 0,
            fu <= 0,
    ;
    assert forall|l: int| 0 <= l < q.len() implies dot(#[trigger] q[l], u) <= 0 by {
        assert(dot(q[l], vertex(q, j)) <= 0);
    }
    assert(contains(q, u));
    assert(contains(p, u));
    assert(dot(p[k], u) <= 0);
    assert(dot(p[succ(k, m)], u) <= 0);
    assert(dot(f, u) == dot(a, u) + dot(b, u));
    lemma_on_both_lines(a, b, u);
    j
}

} // verus!
