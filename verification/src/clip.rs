//! Clipping a convex polygon by a half-plane.
//!
//! The polygon is walked once, edge by edge. A line is kept when its edge has
//! an endpoint strictly inside the half-plane, and the clipping line is put in
//! where the walk leaves the half-plane. The result is again convex, and holds
//! exactly the points of the polygon that lie in the half-plane.

use vstd::prelude::*;
use crate::algebra::{V3, dot, cross, det, turn, unit_w};
use crate::algebra::{
    lemma_det_is_triple,
    lemma_det_repeat,
    lemma_det_swap,
    lemma_pluecker,
    lemma_turn_is_det,
};
use crate::geometry::{Line, det_lines};
use crate::polygon::{
    contains,
    convex,
    lemma_cone_split,
    lemma_hull,
    pred,
    proper,
    succ,
    turns_left,
    vertex,
};

verus! {

/// The clipping line `g` evaluated at vertex `k` of `p`: negative strictly
/// inside the half-plane, positive strictly outside.
pub open spec fn sigma(p: Seq<V3>, g: V3, k: int) -> int {
    dot(g, vertex(p, k))
}

/// The edge on line `k` runs from strictly inside the half-plane to its border or beyond.
pub open spec fn is_exit(p: Seq<V3>, g: V3, k: int) -> bool {
    sigma(p, g, pred(k, p.len() as int)) < 0 && sigma(p, g, k) >= 0
}

/// The edge on line `k` runs from the border of the half-plane, or beyond it,
/// to strictly inside.
pub open spec fn is_entry(p: Seq<V3>, g: V3, k: int) -> bool {
    sigma(p, g, pred(k, p.len() as int)) >= 0 && sigma(p, g, k) < 0
}

/// Along one edge of a polygon the clipping line changes by the turn from the
/// edge's line to it, up to a factor that is positive on a proper edge.
proof fn lemma_edge_turn(lm: V3, l: V3, ln: V3, g: V3)
    ensures
        dot(g, cross(l, ln)) * turn(lm, l) - dot(g, cross(lm, l)) * turn(l, ln) == -(turn(l, g)
            * det(lm, l, ln)),
{
    let e = unit_w();
    lemma_pluecker(l, g, ln, lm, e);
    lemma_det_swap(g, l, ln);
    lemma_det_is_triple(g, l, ln);
    lemma_turn_is_det(l, lm);
    lemma_turn_is_det(lm, l);
    lemma_det_swap(l, g, lm);
    lemma_det_is_triple(g, lm, l);
    lemma_turn_is_det(l, ln);
    lemma_turn_is_det(l, g);
    lemma_det_swap(l, ln, lm);
    let s = dot(g, cross(l, ln));
    let sp = dot(g, cross(lm, l));
    let wp = turn(lm, l);
    let w = turn(l, ln);
    let t = turn(l, g);
    let d = det(lm, l, ln);
    assert(det(l, g, ln) == -s);
    assert(det(l, lm, e) == -wp);
    assert(det(l, g, lm) == sp);
    assert(det(l, ln, e) == w);
    assert(det(l, g, e) == t);
    assert(det(l, ln, lm) == d);
    assert((-s) * (-wp) - sp * w + t * d == 0);
    assert(s * wp - sp * w == -(t * d)) by (nonlinear_arith)
        requires
            (-s) * (-wp) - sp * w + t * d == 0,
    ;
}

/// Where the clipping line crosses an edge, any other line takes a value that
/// is a combination of its values at the two ends of the edge.
proof fn lemma_edge_point(lm: V3, l: V3, ln: V3, g: V3, h: V3)
    ensures
        dot(h, cross(l, g)) * (-det(lm, l, ln)) == dot(h, cross(lm, l)) * dot(g, cross(l, ln))
            - dot(h, cross(l, ln)) * dot(g, cross(lm, l)),
{
    lemma_pluecker(l, h, g, lm, ln);
    lemma_det_swap(h, l, g);
    lemma_det_is_triple(h, l, g);
    lemma_det_swap(lm, l, ln);
    lemma_det_swap(l, h, lm);
    lemma_det_is_triple(h, lm, l);
    lemma_det_swap(g, l, ln);
    lemma_det_is_triple(g, l, ln);
    lemma_det_swap(h, l, ln);
    lemma_det_is_triple(h, l, ln);
    lemma_det_swap(l, g, lm);
    lemma_det_is_triple(g, lm, l);
    let ha = dot(h, cross(l, g));
    let d = det(lm, l, ln);
    let hp = dot(h, cross(lm, l));
    let s = dot(g, cross(l, ln));
    let hv = dot(h, cross(l, ln));
    let sp = dot(g, cross(lm, l));
    assert(det(l, h, g) == -ha);
    assert(det(l, lm, ln) == -d);
    assert(det(l, h, lm) == hp);
    assert(det(l, g, ln) == -s);
    assert(det(l, h, ln) == -hv);
    assert(det(l, g, lm) == sp);
    assert((-ha) * (-d) - hp * (-s) + (-hv) * sp == 0);
    assert(ha * (-d) == hp * s - hv * sp) by (nonlinear_arith)
        requires
            (-ha) * (-d) - hp * (-s) + (-hv) * sp == 0,
    ;
}

proof fn lemma_cycle_steps(k: int, m: int)
    requires
        m >= 2,
        0 <= k < m,
    ensures
        0 <= succ(k, m) < m,
        0 <= pred(k, m) < m,
        succ(pred(k, m), m) == k,
        pred(succ(k, m), m) == k,
{
}

proof fn lemma_sign_exit(s: int, sp: int, wp: int, w: int, t: int, d: int)
    by (nonlinear_arith)
    requires
        s * wp - sp * w == -(t * d),
        s >= 0,
        sp < 0,
        wp > 0,
        w > 0,
        d <= 0,
    ensures
        t > 0,
        d < 0,
{
}

proof fn lemma_sign_entry(s: int, sp: int, wp: int, w: int, t: int, d: int)
    by (nonlinear_arith)
    requires
        s * wp - sp * w == -(t * d),
        s < 0,
        sp >= 0,
        wp > 0,
        w > 0,
        d <= 0,
    ensures
        t < 0,
        d < 0,
{
}

proof fn lemma_sign_exit_point(ha: int, d: int, hp: int, s: int, hv: int, sp: int)
    by (nonlinear_arith)
    requires
        ha * (-d) == hp * s - hv * sp,
        d < 0,
        hp <= 0,
        hv <= 0,
        s >= 0,
        sp < 0,
    ensures
        ha <= 0,
{
}

proof fn lemma_sign_entry_point(ha: int, d: int, hp: int, s: int, hv: int, sp: int)
    by (nonlinear_arith)
    requires
        ha * (-d) == hp * s - hv * sp,
        d < 0,
        hp <= 0,
        hv <= 0,
        s < 0,
        sp >= 0,
    ensures
        ha >= 0,
{
}

/// Where the walk leaves the half-plane on line `k`, the clipping line turns
/// left from that line, and their meeting point obeys every line `h` that the
/// two ends of the edge obey.
proof fn lemma_exit_vertex(p: Seq<V3>, g: V3, k: int, h: V3)
    requires
        convex(p),
        0 <= k < p.len(),
        is_exit(p, g, k),
        dot(h, vertex(p, pred(k, p.len() as int))) <= 0,
        dot(h, vertex(p, k)) <= 0,
    ensures
        turn(p[k], g) > 0,
        dot(h, cross(p[k], g)) <= 0,
{
    let m = p.len() as int;
    lemma_cycle_steps(k, m);
    let lm = p[pred(k, m)];
    let l = p[k];
    let ln = p[succ(k, m)];
    lemma_edge_turn(lm, l, ln, g);
    lemma_edge_point(lm, l, ln, g, h);
    lemma_turn_is_det(lm, l);
    lemma_turn_is_det(l, ln);
    lemma_det_is_triple(lm, l, ln);
    assert(vertex(p, pred(k, m)) == cross(lm, l));
    assert(vertex(p, k) == cross(l, ln));
    assert(vertex(p, pred(k, m)).w > 0);
    assert(vertex(p, k).w > 0);
    assert(dot(p[pred(k, m)], vertex(p, k)) <= 0);
    let d = det(lm, l, ln);
    lemma_sign_exit(sigma(p, g, k), sigma(p, g, pred(k, m)), turn(lm, l), turn(l, ln), turn(l, g), d);
    lemma_sign_exit_point(
        dot(h, cross(l, g)),
        d,
        dot(h, cross(lm, l)),
        sigma(p, g, k),
        dot(h, cross(l, ln)),
        sigma(p, g, pred(k, m)),
    );
}

/// Where the walk comes back into the half-plane on line `k`, that line turns
/// left from the clipping line, and their meeting point obeys every line `h`
/// that the two ends of the edge obey.
proof fn lemma_entry_vertex(p: Seq<V3>, g: V3, k: int, h: V3)
    requires
        convex(p),
        0 <= k < p.len(),
        is_entry(p, g, k),
        dot(h, vertex(p, pred(k, p.len() as int))) <= 0,
        dot(h, vertex(p, k)) <= 0,
    ensures
        turn(g, p[k]) > 0,
        dot(h, cross(g, p[k])) <= 0,
{
    let m = p.len() as int;
    lemma_cycle_steps(k, m);
    let lm = p[pred(k, m)];
    let l = p[k];
    let ln = p[succ(k, m)];
    lemma_edge_turn(lm, l, ln, g);
    lemma_edge_point(lm, l, ln, g, h);
    lemma_turn_is_det(lm, l);
    lemma_turn_is_det(l, ln);
    lemma_turn_is_det(l, g);
    lemma_det_is_triple(lm, l, ln);
    lemma_det_is_triple(h, l, g);
    lemma_det_is_triple(h, g, l);
    lemma_det_swap(h, l, g);
    assert(vertex(p, pred(k, m)) == cross(lm, l));
    assert(vertex(p, k) == cross(l, ln));
    assert(vertex(p, pred(k, m)).w > 0);
    assert(vertex(p, k).w > 0);
    assert(dot(p[pred(k, m)], vertex(p, k)) <= 0);
    let d = det(lm, l, ln);
    lemma_sign_entry(
        sigma(p, g, k),
        sigma(p, g, pred(k, m)),
        turn(lm, l),
        turn(l, ln),
        turn(l, g),
        d,
    );
    lemma_sign_entry_point(
        dot(h, cross(l, g)),
        d,
        dot(h, cross(lm, l)),
        sigma(p, g, k),
        dot(h, cross(l, ln)),
        sigma(p, g, pred(k, m)),
    );
}

proof fn lemma_sign_exit_strict(ha: int, d: int, hp: int, s: int, hv: int, sp: int)
    by (nonlinear_arith)
    requires
        ha * (-d) == hp * s - hv * sp,
        d < 0,
        hp <= 0,
        hv <= 0,
        s >= 0,
        sp < 0,
        hv < 0 || (hp < 0 && s > 0),
    ensures
        ha < 0,
{
}

proof fn lemma_sign_entry_strict(ha: int, d: int, hp: int, s: int, hv: int, sp: int)
    by (nonlinear_arith)
    requires
        ha * (-d) == hp * s - hv * sp,
        d < 0,
        hp <= 0,
        hv <= 0,
        s < 0,
        sp >= 0,
        hp < 0 || (hv < 0 && sp > 0),
    ensures
        ha > 0,
{
}

/// The meeting point of the clipping line with the edge on which the walk
/// leaves lies strictly inside every other line of the polygon, but for the
/// next line when the edge ends on the clipping line.
proof fn lemma_exit_vertex_strict(p: Seq<V3>, g: V3, k: int, j: int)
    requires
        convex(p),
        proper(p),
        0 <= k < p.len(),
        0 <= j < p.len(),
        is_exit(p, g, k),
        j != k,
        j != succ(k, p.len() as int) || sigma(p, g, k) > 0,
    ensures
        dot(p[j], cross(p[k], g)) < 0,
{
    let m = p.len() as int;
    lemma_cycle_steps(k, m);
    let h = p[j];
    let lm = p[pred(k, m)];
    let l = p[k];
    let ln = p[succ(k, m)];
    lemma_edge_turn(lm, l, ln, g);
    lemma_edge_point(lm, l, ln, g, h);
    lemma_turn_is_det(lm, l);
    lemma_turn_is_det(l, ln);
    lemma_det_is_triple(lm, l, ln);
    assert(vertex(p, pred(k, m)) == cross(lm, l));
    assert(vertex(p, k) == cross(l, ln));
    assert(vertex(p, pred(k, m)).w > 0);
    assert(vertex(p, k).w > 0);
    assert(dot(p[pred(k, m)], vertex(p, k)) <= 0);
    assert(dot(p[j], vertex(p, pred(k, m))) <= 0);
    assert(dot(p[j], vertex(p, k)) <= 0);
    if j != succ(k, m) {
        assert(dot(p[j], vertex(p, k)) < 0);
    } else {
        assert(j != pred(k, m));
        assert(dot(p[j], vertex(p, pred(k, m))) < 0);
    }
    let d = det(lm, l, ln);
    lemma_sign_exit(sigma(p, g, k), sigma(p, g, pred(k, m)), turn(lm, l), turn(l, ln), turn(l, g), d);
    lemma_sign_exit_strict(
        dot(h, cross(l, g)),
        d,
        dot(h, cross(lm, l)),
        sigma(p, g, k),
        dot(h, cross(l, ln)),
        sigma(p, g, pred(k, m)),
    );
}

/// The meeting point of the clipping line with the edge on which the walk
/// comes back lies strictly inside every other line of the polygon, but for
/// the line before when the edge starts on the clipping line.
proof fn lemma_entry_vertex_strict(p: Seq<V3>, g: V3, k: int, j: int)
    requires
        convex(p),
        proper(p),
        0 <= k < p.len(),
        0 <= j < p.len(),
        is_entry(p, g, k),
        j != k,
        j != pred(k, p.len() as int) || sigma(p, g, pred(k, p.len() as int)) > 0,
    ensures
        dot(p[j], cross(g, p[k])) < 0,
{
    let m = p.len() as int;
    lemma_cycle_steps(k, m);
    let h = p[j];
    let lm = p[pred(k, m)];
    let l = p[k];
    let ln = p[succ(k, m)];
    lemma_edge_turn(lm, l, ln, g);
    lemma_edge_point(lm, l, ln, g, h);
    lemma_turn_is_det(lm, l);
    lemma_turn_is_det(l, ln);
    lemma_turn_is_det(l, g);
    lemma_det_is_triple(lm, l, ln);
    lemma_det_is_triple(h, l, g);
    lemma_det_is_triple(h, g, l);
    lemma_det_swap(h, l, g);
    assert(vertex(p, pred(k, m)) == cross(lm, l));
    assert(vertex(p, k) == cross(l, ln));
    assert(vertex(p, pred(k, m)).w > 0);
    assert(vertex(p, k).w > 0);
    assert(dot(p[pred(k, m)], vertex(p, k)) <= 0);
    assert(dot(p[j], vertex(p, pred(k, m))) <= 0);
    assert(dot(p[j], vertex(p, k)) <= 0);
    if j != pred(k, m) {
        assert(j != succ(pred(k, m), m));
        assert(dot(p[j], vertex(p, pred(k, m))) < 0);
    } else {
        assert(j != succ(k, m));
        assert(dot(p[j], vertex(p, k)) < 0);
    }
    let d = det(lm, l, ln);
    lemma_sign_entry(
        sigma(p, g, k),
        sigma(p, g, pred(k, m)),
        turn(lm, l),
        turn(l, ln),
        turn(l, g),
        d,
    );
    lemma_sign_entry_strict(
        dot(h, cross(l, g)),
        d,
        dot(h, cross(lm, l)),
        sigma(p, g, k),
        dot(h, cross(l, ln)),
        sigma(p, g, pred(k, m)),
    );
}

/// When the walk leaves on an edge that ends on the clipping line and comes
/// back on the very next edge, the line only touches the polygon, and no
/// vertex lies outside.
proof fn lemma_no_touch(p: Seq<V3>, g: V3, a: int, t: int)
    requires
        convex(p),
        0 <= a < p.len(),
        0 <= t < p.len(),
        is_exit(p, g, a),
        is_entry(p, g, succ(a, p.len() as int)),
        sigma(p, g, a) == 0,
    ensures
        sigma(p, g, t) <= 0,
{
    let m = p.len() as int;
    lemma_cycle_steps(a, m);
    let b = succ(a, m);
    let z = vertex(p, t);
    lemma_cone_split(p, g, z, a);
    assert(dot(p[a], vertex(p, pred(a, m))) <= 0);
    assert(dot(p[a], vertex(p, a)) <= 0);
    lemma_exit_vertex(p, g, a, p[a]);
    assert(dot(p[b], vertex(p, pred(b, m))) <= 0);
    assert(dot(p[b], vertex(p, b)) <= 0);
    lemma_entry_vertex(p, g, b, p[b]);
    assert(dot(p[a], z) <= 0);
    assert(dot(p[b], z) <= 0);
    assert(z.w > 0);
    assert(vertex(p, a).w > 0);
    let gz = dot(g, z);
    let wa = vertex(p, a).w;
    let za = dot(p[a], z);
    let zb = dot(p[b], z);
    let al = turn(g, p[b]);
    let be = turn(p[a], g);
    let s = dot(g, vertex(p, a));
    assert(gz <= 0) by (nonlinear_arith)
        requires
            gz * wa == za * al + zb * be + z.w * s,
            wa > 0,
            za <= 0,
            zb <= 0,
            al > 0,
            be > 0,
            s == 0,
    ;
}

/// The line that a tag stands for: a line of the polygon, or the clipping line for `-1`.
pub open spec fn pick(p: Seq<V3>, g: V3, a: int) -> V3 {
    if a < 0 {
        g
    } else {
        p[a]
    }
}

/// Tag `b` may come directly after tag `a` in a clipped polygon.
pub open spec fn follows(p: Seq<V3>, g: V3, a: int, b: int) -> bool {
    ||| (0 <= a < p.len() && b == succ(a, p.len() as int) && sigma(p, g, a) < 0)
    ||| (0 <= a < p.len() && b == -1 && is_exit(p, g, a))
    ||| (a == -1 && 0 <= b < p.len() && is_entry(p, g, b))
}

/// `q` is a walk around `p` clipped by `g`, and `src` tells where each of its lines comes from.
pub open spec fn traced(p: Seq<V3>, g: V3, q: Seq<V3>, src: Seq<int>) -> bool {
    &&& q.len() == src.len()
    &&& q.len() >= 1
    &&& src[q.len() - 1] == -1
    &&& forall|i: int| 0 <= i < q.len() ==> -1 <= #[trigger] src[i] < p.len()
    &&& forall|i: int| 0 <= i < q.len() ==> #[trigger] q[i] == pick(p, g, src[i])
    &&& forall|i: int|
        0 <= i < q.len() ==> follows(p, g, #[trigger] src[i], src[succ(i, q.len() as int)])
}

/// Every vertex of the walk is a proper point.
proof fn lemma_traced_turn(p: Seq<V3>, g: V3, q: Seq<V3>, src: Seq<int>, i: int)
    requires
        convex(p),
        traced(p, g, q, src),
        0 <= i < q.len(),
    ensures
        vertex(q, i).w > 0,
{
    let m = p.len() as int;
    let n = q.len() as int;
    let a = src[i];
    let b = src[succ(i, n)];
    assert(follows(p, g, a, b));
    assert(q[i] == pick(p, g, a));
    assert(q[succ(i, n)] == pick(p, g, src[succ(i, n)]));
    if 0 <= a && b == -1 {
        lemma_cycle_steps(a, m);
        assert(dot(p[a], vertex(p, pred(a, m))) <= 0);
        assert(dot(p[a], vertex(p, a)) <= 0);
        lemma_exit_vertex(p, g, a, p[a]);
        lemma_turn_is_det(p[a], g);
    } else if a == -1 {
        lemma_cycle_steps(b, m);
        assert(dot(p[b], vertex(p, pred(b, m))) <= 0);
        assert(dot(p[b], vertex(p, b)) <= 0);
        lemma_entry_vertex(p, g, b, p[b]);
        lemma_turn_is_det(g, p[b]);
    } else {
        assert(vertex(q, i) == vertex(p, a));
        assert(vertex(p, a).w > 0);
    }
}

/// A line that every vertex of `p` obeys is obeyed by every vertex of the walk.
proof fn lemma_traced_obeys(p: Seq<V3>, g: V3, q: Seq<V3>, src: Seq<int>, i: int, h: V3)
    requires
        convex(p),
        traced(p, g, q, src),
        0 <= i < q.len(),
        forall|k: int| 0 <= k < p.len() ==> dot(h, #[trigger] vertex(p, k)) <= 0,
    ensures
        dot(h, vertex(q, i)) <= 0,
{
    let m = p.len() as int;
    let n = q.len() as int;
    let a = src[i];
    let b = src[succ(i, n)];
    assert(follows(p, g, a, b));
    assert(q[i] == pick(p, g, a));
    assert(q[succ(i, n)] == pick(p, g, src[succ(i, n)]));
    if 0 <= a && b == -1 {
        lemma_cycle_steps(a, m);
        lemma_exit_vertex(p, g, a, h);
    } else if a == -1 {
        lemma_cycle_steps(b, m);
        lemma_entry_vertex(p, g, b, h);
    } else {
        assert(vertex(q, i) == vertex(p, a));
    }
}

/// The clipping line is obeyed by every vertex of the walk.
proof fn lemma_traced_clipped(p: Seq<V3>, g: V3, q: Seq<V3>, src: Seq<int>, i: int)
    requires
        convex(p),
        traced(p, g, q, src),
        0 <= i < q.len(),
    ensures
        dot(g, vertex(q, i)) <= 0,
{
    let m = p.len() as int;
    let n = q.len() as int;
    let a = src[i];
    let b = src[succ(i, n)];
    assert(follows(p, g, a, b));
    assert(q[i] == pick(p, g, a));
    assert(q[succ(i, n)] == pick(p, g, src[succ(i, n)]));
    if 0 <= a && b == -1 {
        lemma_det_is_triple(g, p[a], g);
        lemma_det_repeat(g, p[a]);
    } else if a == -1 {
        lemma_det_is_triple(g, g, p[b]);
        lemma_det_repeat(g, p[b]);
    } else {
        assert(vertex(q, i) == vertex(p, a));
    }
}

/// A cycle of lines that turn left has at least three lines.
proof fn lemma_turning_has_three(q: Seq<V3>)
    requires
        q.len() >= 1,
        turns_left(q),
    ensures
        q.len() >= 3,
{
    assert(vertex(q, 0).w > 0);
    if q.len() == 1 {
        lemma_turn_is_det(q[0], q[0]);
    } else if q.len() == 2 {
        assert(vertex(q, 1).w > 0);
        lemma_turn_is_det(q[0], q[1]);
        lemma_turn_is_det(q[1], q[0]);
    }
}

/// The walk is a convex polygon, and it holds exactly the points of `p` that obey `g`.
proof fn lemma_traced_convex(p: Seq<V3>, g: V3, q: Seq<V3>, src: Seq<int>)
    requires
        convex(p),
        traced(p, g, q, src),
    ensures
        convex(q),
        forall|z: V3| z.w > 0 ==> (#[trigger] contains(q, z) <==> contains(p, z) && dot(g, z) <= 0),
{
    assert forall|i: int| 0 <= i < q.len() implies (#[trigger] vertex(q, i)).w > 0 by {
        lemma_traced_turn(p, g, q, src, i);
    }
    lemma_turning_has_three(q);
    assert forall|j: int, i: int| 0 <= j < q.len() && 0 <= i < q.len() implies dot(
        #[trigger] q[j],
        #[trigger] vertex(q, i),
    ) <= 0 by {
        assert(q[j] == pick(p, g, src[j]));
        if src[j] < 0 {
            lemma_traced_clipped(p, g, q, src, i);
        } else {
            let h = p[src[j]];
            assert forall|k: int| 0 <= k < p.len() implies dot(h, #[trigger] vertex(p, k)) <= 0 by {
                assert(dot(p[src[j]], vertex(p, k)) <= 0);
            }
            lemma_traced_obeys(p, g, q, src, i, h);
        }
    }
    assert forall|z: V3| z.w > 0 implies (#[trigger] contains(q, z) <==> contains(p, z) && dot(
        g,
        z,
    ) <= 0) by {
        if contains(q, z) {
            let last = q.len() - 1;
            assert(q[last] == pick(p, g, src[last]));
            assert(dot(q[last], z) <= 0);
            assert forall|l: int| 0 <= l < p.len() implies dot(#[trigger] p[l], z) <= 0 by {
                let h = p[l];
                assert forall|i: int| 0 <= i < q.len() implies dot(h, #[trigger] vertex(q, i))
                    <= 0 by {
                    assert forall|k: int| 0 <= k < p.len() implies dot(h, #[trigger] vertex(p, k))
                        <= 0 by {
                        assert(dot(p[l], vertex(p, k)) <= 0);
                    }
                    lemma_traced_obeys(p, g, q, src, i, h);
                }
                lemma_hull(q, h, z);
            }
        }
        if contains(p, z) && dot(g, z) <= 0 {
            assert forall|i: int| 0 <= i < q.len() implies dot(#[trigger] q[i], z) <= 0 by {
                assert(q[i] == pick(p, g, src[i]));
                if src[i] >= 0 {
                    assert(dot(p[src[i]], z) <= 0);
                }
            }
        }
    }
}

/// The index `i` steps after `first` on a cycle of length `m`.
pub open spec fn shift(first: int, i: int, m: int) -> int {
    if first + i < m {
        first + i
    } else {
        first + i - m
    }
}

/// `q` is the walk along `p` from the edge on which it comes into the
/// half-plane of `g` to the edge on which it leaves, closed by `g` itself.
pub open spec fn walked(p: Seq<V3>, g: V3, q: Seq<V3>, src: Seq<int>, first: int) -> bool {
    &&& 0 <= first < p.len()
    &&& q.len() == src.len()
    &&& 3 <= q.len() <= p.len() + 1
    &&& src[q.len() - 1] == -1
    &&& forall|i: int| 0 <= i < q.len() - 1 ==> #[trigger] src[i] == shift(first, i, p.len() as int)
    &&& forall|i: int| 0 <= i < q.len() ==> #[trigger] q[i] == pick(p, g, src[i])
    &&& forall|i: int| 0 <= i < q.len() - 2 ==> sigma(p, g, #[trigger] src[i]) < 0
    &&& sigma(p, g, src[q.len() - 2]) >= 0
    &&& is_entry(p, g, first)
}

proof fn lemma_walk_traced(p: Seq<V3>, g: V3, q: Seq<V3>, src: Seq<int>, first: int)
    requires
        p.len() >= 3,
        walked(p, g, q, src, first),
    ensures
        traced(p, g, q, src),
{
    let m = p.len() as int;
    let n = q.len() as int;
    assert forall|i: int| 0 <= i < n implies -1 <= #[trigger] src[i] < m by {
        if i < n - 1 {
            assert(src[i] == shift(first, i, m));
        }
    }
    assert forall|i: int| 0 <= i < n implies follows(p, g, #[trigger] src[i], src[succ(i, n)]) by {
        if i < n - 2 {
            assert(src[i] == shift(first, i, m));
            assert(src[i + 1] == shift(first, i + 1, m));
            assert(sigma(p, g, src[i]) < 0);
        } else if i == n - 2 {
            assert(src[i] == shift(first, i, m));
            assert(src[i - 1] == shift(first, i - 1, m));
            assert(sigma(p, g, src[i - 1]) < 0);
            assert(pred(src[i], m) == src[i - 1]);
        } else {
            assert(src[0] == shift(first, 0, m));
        }
    }
}

/// An old corner of the walk lies strictly inside every line of the walk but its own two.
proof fn lemma_walk_proper_old(
    p: Seq<V3>,
    g: V3,
    q: Seq<V3>,
    src: Seq<int>,
    first: int,
    i: int,
    j: int,
)
    requires
        convex(p),
        proper(p),
        walked(p, g, q, src, first),
        0 <= i < q.len() - 2,
        0 <= j < q.len(),
        j != i,
        j != i + 1,
    ensures
        dot(q[j], vertex(q, i)) < 0,
{
    let m = p.len() as int;
    let n = q.len() as int;
    let c = src[i];
    assert(c == shift(first, i, m));
    assert(src[i + 1] == shift(first, i + 1, m));
    assert(q[i] == pick(p, g, src[i]));
    assert(q[i + 1] == pick(p, g, src[i + 1]));
    assert(q[j] == pick(p, g, src[j]));
    assert(succ(i, n) == i + 1);
    assert(vertex(q, i) == vertex(p, c));
    if j == n - 1 {
        assert(sigma(p, g, src[i]) < 0);
    } else {
        assert(src[j] == shift(first, j, m));
        assert(src[j] != c);
        assert(src[j] != succ(c, m));
        assert(dot(p[src[j]], vertex(p, c)) < 0);
    }
}

/// The corner where the walk leaves lies strictly inside every earlier line of the walk.
proof fn lemma_walk_proper_exit(
    p: Seq<V3>,
    g: V3,
    q: Seq<V3>,
    src: Seq<int>,
    first: int,
    outside: int,
    j: int,
)
    requires
        convex(p),
        proper(p),
        walked(p, g, q, src, first),
        0 <= outside < p.len(),
        sigma(p, g, outside) > 0,
        0 <= j < q.len() - 2,
    ensures
        dot(q[j], vertex(q, q.len() - 2)) < 0,
{
    let m = p.len() as int;
    let n = q.len() as int;
    let a = src[n - 2];
    assert(a == shift(first, n - 2, m));
    assert(src[n - 3] == shift(first, n - 3, m));
    assert(sigma(p, g, src[n - 3]) < 0);
    assert(pred(a, m) == src[n - 3]);
    assert(is_exit(p, g, a));
    assert(q[n - 2] == pick(p, g, src[n - 2]));
    assert(q[n - 1] == pick(p, g, src[n - 1]));
    assert(q[j] == pick(p, g, src[j]));
    assert(succ(n - 2, n) == n - 1);
    assert(vertex(q, n - 2) == cross(p[a], g));
    let d = src[j];
    assert(d == shift(first, j, m));
    assert(d != a);
    if d == succ(a, m) && sigma(p, g, a) == 0 {
        assert(sigma(p, g, src[j]) < 0);
        lemma_no_touch(p, g, a, outside);
    }
    lemma_exit_vertex_strict(p, g, a, d);
}

/// The corner where the walk comes back lies strictly inside every later line of the walk.
proof fn lemma_walk_proper_entry(
    p: Seq<V3>,
    g: V3,
    q: Seq<V3>,
    src: Seq<int>,
    first: int,
    outside: int,
    j: int,
)
    requires
        convex(p),
        proper(p),
        walked(p, g, q, src, first),
        0 <= outside < p.len(),
        sigma(p, g, outside) > 0,
        1 <= j < q.len() - 1,
    ensures
        dot(q[j], vertex(q, q.len() - 1)) < 0,
{
    let m = p.len() as int;
    let n = q.len() as int;
    let a = src[n - 2];
    assert(a == shift(first, n - 2, m));
    assert(src[n - 3] == shift(first, n - 3, m));
    assert(sigma(p, g, src[n - 3]) < 0);
    assert(pred(a, m) == src[n - 3]);
    assert(is_exit(p, g, a));
    assert(src[0] == shift(first, 0, m));
    assert(q[0] == pick(p, g, src[0]));
    assert(q[n - 1] == pick(p, g, src[n - 1]));
    assert(q[j] == pick(p, g, src[j]));
    assert(succ(n - 1, n) == 0);
    assert(vertex(q, n - 1) == cross(g, p[first]));
    let d = src[j];
    assert(d == shift(first, j, m));
    assert(d != first);
    if d == pred(first, m) && sigma(p, g, pred(first, m)) == 0 {
        if j < n - 2 {
            assert(sigma(p, g, src[j]) < 0);
        } else {
            lemma_cycle_steps(first, m);
            lemma_no_touch(p, g, a, outside);
        }
    }
    lemma_entry_vertex_strict(p, g, first, d);
}

/// The walk is a proper convex polygon, and it holds exactly the points of
/// `p` in the half-plane, when `p` is proper and convex and some vertex of `p`
/// lies strictly outside the half-plane.
proof fn lemma_walk_result(p: Seq<V3>, g: V3, q: Seq<V3>, src: Seq<int>, first: int, outside: int)
    requires
        convex(p),
        proper(p),
        walked(p, g, q, src, first),
        0 <= outside < p.len(),
        sigma(p, g, outside) > 0,
    ensures
        convex(q),
        proper(q),
        forall|z: V3| z.w > 0 ==> (#[trigger] contains(q, z) <==> contains(p, z) && dot(g, z) <= 0),
{
    let n = q.len() as int;
    lemma_walk_traced(p, g, q, src, first);
    lemma_traced_convex(p, g, q, src);
    assert forall|j: int, i: int|
        0 <= j < n && 0 <= i < n && j != i && j != succ(i, n) implies dot(
            #[trigger] q[j],
            #[trigger] vertex(q, i),
        ) < 0 by {
        if i < n - 2 {
            lemma_walk_proper_old(p, g, q, src, first, i, j);
        } else if i == n - 2 {
            lemma_walk_proper_exit(p, g, q, src, first, outside, j);
        } else {
            lemma_walk_proper_entry(p, g, q, src, first, outside, j);
        }
    }
}

/// A line that no vertex of the polygon crosses is crossed by no point of it.
proof fn lemma_whole(p: Seq<V3>, g: V3)
    requires
        convex(p),
        forall|k: int| 0 <= k < p.len() ==> sigma(p, g, k) <= 0,
    ensures
        forall|z: V3| z.w > 0 && #[trigger] contains(p, z) ==> dot(g, z) <= 0,
{
    assert forall|t: int| 0 <= t < p.len() implies dot(g, #[trigger] vertex(p, t)) <= 0 by {
        assert(sigma(p, g, t) <= 0);
    }
    assert forall|z: V3| z.w > 0 && #[trigger] contains(p, z) implies dot(g, z) <= 0 by {
        lemma_hull(p, g, z);
    }
}

/// When no vertex of the polygon lies strictly inside the half-plane, no point of it does.
proof fn lemma_nothing(p: Seq<V3>, g: V3)
    requires
        convex(p),
        forall|k: int| 0 <= k < p.len() ==> sigma(p, g, k) >= 0,
    ensures
        forall|z: V3| z.w > 0 && #[trigger] contains(p, z) ==> dot(g, z) >= 0,
{
    let ng = V3 { x: -g.x, y: -g.y, w: -g.w };
    assert forall|z: V3| z.w > 0 && #[trigger] contains(p, z) implies dot(g, z) >= 0 by {
        assert forall|t: int| 0 <= t < p.len() implies dot(ng, #[trigger] vertex(p, t)) <= 0 by {
            lemma_dot_negated(g, vertex(p, t));
            assert(sigma(p, g, t) >= 0);
        }
        lemma_hull(p, ng, z);
        lemma_dot_negated(g, z);
    }
}

proof fn lemma_dot_negated(g: V3, z: V3)
    ensures
        dot(V3 { x: -g.x, y: -g.y, w: -g.w }, z) == -dot(g, z),
{
    assert((-g.x) * z.x == -(g.x * z.x)) by (nonlinear_arith);
    assert((-g.y) * z.y == -(g.y * z.y)) by (nonlinear_arith);
    assert((-g.w) * z.w == -(g.w * z.w)) by (nonlinear_arith);
}

/// The lines of a polygon as vectors.
pub open spec fn lines_of(v: Seq<Line>) -> Seq<V3> {
    Seq::new(v.len(), |i: int| v[i]@)
}

pub open spec fn all_bounded(v: Seq<Line>) -> bool {
    forall|i: int| 0 <= i < v.len() ==> (#[trigger] v[i]).bounded()
}

/// What is left of a polygon after clipping.
pub enum Clipped {
    /// The polygon lies in the half-plane already.
    Whole,
    /// The part of the polygon in the half-plane, a polygon with fewer points.
    Part(Vec<Line>),
    /// No point of the polygon lies strictly inside the half-plane.
    Nothing,
}

proof fn lemma_negative_down(p: Seq<V3>, g: V3, hi: int, k: int)
    requires
        p.len() >= 2,
        0 <= k <= hi < p.len(),
        sigma(p, g, hi) < 0,
        forall|t: int| 0 <= t < p.len() ==> !is_entry(p, g, t),
    ensures
        sigma(p, g, k) < 0,
    decreases hi - k,
{
    if k < hi {
        lemma_negative_down(p, g, hi, k + 1);
        assert(!is_entry(p, g, k + 1));
    }
}

/// A walk that is somewhere strictly inside and somewhere not comes back in on some edge.
proof fn lemma_entry_exists(p: Seq<V3>, g: V3, neg: int, pos: int)
    requires
        p.len() >= 2,
        0 <= neg < p.len(),
        0 <= pos < p.len(),
        sigma(p, g, neg) < 0,
        sigma(p, g, pos) >= 0,
    ensures
        exists|t: int| 0 <= t < p.len() && is_entry(p, g, t),
{
    if forall|t: int| 0 <= t < p.len() ==> !is_entry(p, g, t) {
        let m = p.len() as int;
        lemma_negative_down(p, g, neg, 0);
        assert(!is_entry(p, g, 0));
        lemma_negative_down(p, g, m - 1, pos);
        assert(false);
    }
}

/// The clipping line evaluated at every vertex of the polygon.
fn vertex_signs(poly: &Vec<Line>, g: &Line) -> (sig: Vec<i128>)
    requires
        poly.len() >= 1,
        all_bounded(poly@),
        g.bounded(),
    ensures
        sig.len() == poly.len(),
        forall|t: int| 0 <= t < sig.len() ==> #[trigger] sig[t] == sigma(lines_of(poly@), g@, t),
{
    let m = poly.len();
    let ghost p = lines_of(poly@);
    let mut sig: Vec<i128> = Vec::new();
    let mut k: usize = 0;
    while k < m
        invariant
            m == poly.len(),
            p == lines_of(poly@),
            all_bounded(poly@),
            g.bounded(),
            0 <= k <= m,
            sig.len() == k,
            forall|t: int| 0 <= t < k ==> #[trigger] sig[t] == sigma(p, g@, t),
        decreases m - k,
    {
        let kn = if k + 1 == m {
            0
        } else {
            k + 1
        };
        let s = det_lines(g, &poly[k], &poly[kn]);
        proof {
            lemma_det_is_triple(g@, p[k as int], p[kn as int]);
            assert(s == sigma(p, g@, k as int));
        }
        sig.push(s);
        k += 1;
    }
    sig
}

/// The first index with a negative value.
fn first_negative(sig: &Vec<i128>) -> (r: Option<usize>)
    ensures
        match r {
            Some(i) => i < sig.len() && sig[i as int] < 0,
            None => forall|t: int| 0 <= t < sig.len() ==> sig[t] >= 0,
        },
{
    let mut i: usize = 0;
    while i < sig.len()
        invariant
            0 <= i <= sig.len(),
            forall|t: int| 0 <= t < i ==> sig[t] >= 0,
        decreases sig.len() - i,
    {
        if sig[i] < 0 {
            return Some(i);
        }
        i += 1;
    }
    None
}

/// The first index with a positive value.
fn first_positive(sig: &Vec<i128>) -> (r: Option<usize>)
    ensures
        match r {
            Some(i) => i < sig.len() && sig[i as int] > 0,
            None => forall|t: int| 0 <= t < sig.len() ==> sig[t] <= 0,
        },
{
    let mut i: usize = 0;
    while i < sig.len()
        invariant
            0 <= i <= sig.len(),
            forall|t: int| 0 <= t < i ==> sig[t] <= 0,
        decreases sig.len() - i,
    {
        if sig[i] > 0 {
            return Some(i);
        }
        i += 1;
    }
    None
}

fn entry_at(sig: &Vec<i128>, i: usize) -> (b: bool)
    requires
        i < sig.len(),
    ensures
        b == (sig[pred(i as int, sig.len() as int)] >= 0 && sig[i as int] < 0),
{
    let before = if i == 0 {
        sig.len() - 1
    } else {
        i - 1
    };
    sig[before] >= 0 && sig[i] < 0
}

/// The edge on which the walk comes back into the half-plane.
fn find_entry(sig: &Vec<i128>, Ghost(p): Ghost<Seq<V3>>, Ghost(g): Ghost<V3>) -> (first: usize)
    requires
        p.len() == sig.len(),
        p.len() >= 2,
        forall|t: int| 0 <= t < sig.len() ==> #[trigger] sig[t] == sigma(p, g, t),
        exists|t: int| 0 <= t < p.len() && is_entry(p, g, t),
    ensures
        first < sig.len(),
        is_entry(p, g, first as int),
{
    let m = sig.len();
    let mut first: usize = 0;
    while !entry_at(sig, first)
        invariant
            m == sig.len(),
            m == p.len(),
            m >= 2,
            0 <= first < m,
            forall|t: int| 0 <= t < m ==> #[trigger] sig[t] == sigma(p, g, t),
            forall|t: int| 0 <= t < first ==> !is_entry(p, g, t),
            exists|t: int| 0 <= t < p.len() && is_entry(p, g, t),
        decreases m - first,
    {
        proof {
            lemma_cycle_steps(first as int, m as int);
            assert(!is_entry(p, g, first as int));
        }
        first += 1;
    }
    proof {
        lemma_cycle_steps(first as int, m as int);
    }
    first
}

/// The lines of `poly` from the edge `first`, on which the walk comes into
/// the half-plane, to the edge on which it leaves, and then the clipping line.
fn walk(
    poly: &Vec<Line>,
    g: &Line,
    sig: &Vec<i128>,
    first: usize,
    Ghost(outside): Ghost<int>,
) -> (out: Vec<Line>)
    requires
        poly.len() >= 3,
        poly.len() == sig.len(),
        all_bounded(poly@),
        g.bounded(),
        first < poly.len(),
        is_entry(lines_of(poly@), g@, first as int),
        forall|i: int| 0 <= i < sig.len() ==> #[trigger] sig[i] == sigma(lines_of(poly@), g@, i),
        0 <= outside < poly.len(),
        sigma(lines_of(poly@), g@, outside) > 0,
    ensures
        all_bounded(out@),
        out.len() <= poly.len() + 1,
        forall|i: int| 0 <= i < out.len() ==> #[trigger] out[i] == *g || poly@.contains(out[i]),
        exists|src: Seq<int>| #[trigger]
            walked(lines_of(poly@), g@, lines_of(out@), src, first as int),
{
    let m = poly.len();
    let ghost p = lines_of(poly@);
    let mut out: Vec<Line> = Vec::new();
    let ghost mut src: Seq<int> = Seq::empty();
    let mut t: usize = 0;
    let mut k: usize = first;
    while sig[k] < 0
        invariant
            m == poly.len(),
            m == sig.len(),
            p == lines_of(poly@),
            m >= 3,
            all_bounded(poly@),
            0 <= first < m,
            forall|i: int| 0 <= i < m ==> #[trigger] sig[i] == sigma(p, g@, i),
            0 <= outside < m,
            sigma(p, g@, outside) > 0,
            0 <= t < m,
            k == shift(first as int, t as int, m as int),
            out.len() == t,
            src.len() == t,
            all_bounded(out@),
            forall|i: int| 0 <= i < t ==> #[trigger] src[i] == shift(first as int, i, m as int),
            forall|i: int| 0 <= i < t ==> #[trigger] out[i] == poly[src[i]],
            forall|i: int| 0 <= i < t ==> sigma(p, g@, #[trigger] src[i]) < 0,
        decreases m - t,
    {
        proof {
            if t + 1 == m {
                let o = outside;
                let i = if o >= first {
                    o - first
                } else {
                    o - first + m
                };
                assert(shift(first as int, i, m as int) == o);
                if i < t {
                    assert(sigma(p, g@, src[i]) < 0);
                }
            }
            src = src.push(k as int);
        }
        out.push(poly[k]);
        t += 1;
        k = if k + 1 == m {
            0
        } else {
            k + 1
        };
    }
    let ghost inner = src;
    proof {
        src = src.push(k as int).push(-1);
    }
    out.push(poly[k]);
    out.push(*g);
    proof {
        let q = lines_of(out@);
        assert(t > 0);
        assert(q.len() == t + 2);
        assert(src[t + 1] == -1);
        assert(src[t as int] == k);
        assert forall|i: int| 0 <= i < q.len() - 1 implies #[trigger] src[i] == shift(
            first as int,
            i,
            m as int,
        ) by {
            if i < t {
                assert(src[i] == inner[i]);
            }
        }
        assert forall|i: int| 0 <= i < q.len() implies #[trigger] q[i] == pick(p, g@, src[i]) by {
            if i < t {
                assert(src[i] == inner[i]);
                assert(out[i] == poly[inner[i]]);
            }
        }
        assert forall|i: int| 0 <= i < q.len() - 2 implies sigma(p, g@, #[trigger] src[i]) < 0 by {
            assert(src[i] == inner[i]);
            assert(sigma(p, g@, inner[i]) < 0);
        }
        assert(walked(p, g@, q, src, first as int));
        assert forall|i: int| 0 <= i < out.len() implies #[trigger] out[i] == *g || poly@.contains(
            out[i],
        ) by {
            if i < t {
                assert(out[i] == poly@[inner[i]]);
            } else if i == t {
                assert(out[i] == poly@[k as int]);
            }
        }
    }
    out
}

/// Clips the convex polygon `poly` by the half-plane of `g`.
pub fn clip(poly: &Vec<Line>, g: &Line) -> (r: Clipped)
    requires
        convex(lines_of(poly@)),
        proper(lines_of(poly@)),
        all_bounded(poly@),
        g.bounded(),
    ensures
        r is Whole <==> forall|k: int|
            0 <= k < poly.len() ==> sigma(lines_of(poly@), g@, k) <= 0,
        r is Nothing <==> (exists|k: int| 0 <= k < poly.len() && sigma(lines_of(poly@), g@, k) > 0)
            && forall|k: int| 0 <= k < poly.len() ==> sigma(lines_of(poly@), g@, k) >= 0,
        match r {
            Clipped::Whole => forall|z: V3|
                z.w > 0 && #[trigger] contains(lines_of(poly@), z) ==> dot(g@, z) <= 0,
            Clipped::Nothing => forall|z: V3|
                z.w > 0 && #[trigger] contains(lines_of(poly@), z) ==> dot(g@, z) >= 0,
            Clipped::Part(q) => {
                &&& convex(lines_of(q@))
                &&& proper(lines_of(q@))
                &&& all_bounded(q@)
                &&& q.len() <= poly.len() + 1
                &&& forall|i: int|
                    0 <= i < q.len() ==> #[trigger] q[i] == *g || poly@.contains(q[i])
                &&& forall|z: V3|
                    z.w > 0 ==> (#[trigger] contains(lines_of(q@), z) <==> contains(
                        lines_of(poly@),
                        z,
                    ) && dot(g@, z) <= 0)
            },
        },
{
    let ghost p = lines_of(poly@);
    let sig = vertex_signs(poly, g);
    let outside = match first_positive(&sig) {
        Some(i) => i,
        None => {
            proof {
                assert forall|t: int| 0 <= t < p.len() implies sigma(p, g@, t) <= 0 by {
                    assert(sig[t] <= 0);
                }
                lemma_whole(p, g@);
            }
            return Clipped::Whole;
        },
    };
    assert(sigma(p, g@, outside as int) > 0) by {
        assert(sig[outside as int] > 0);
    }
    let inside = match first_negative(&sig) {
        Some(i) => i,
        None => {
            proof {
                assert forall|t: int| 0 <= t < p.len() implies sigma(p, g@, t) >= 0 by {
                    assert(sig[t] >= 0);
                }
                lemma_nothing(p, g@);
            }
            return Clipped::Nothing;
        },
    };
    proof {
        assert(sig[inside as int] < 0);
        lemma_entry_exists(p, g@, inside as int, outside as int);
    }
    let first = find_entry(&sig, Ghost(p), Ghost(g@));
    let out = walk(poly, g, &sig, first, Ghost(outside as int));
    proof {
        let src = choose|src: Seq<int>| #[trigger]
            walked(p, g@, lines_of(out@), src, first as int);
        lemma_walk_result(p, g@, lines_of(out@), src, first as int, outside as int);
    }
    Clipped::Part(out)
}

} // verus!
