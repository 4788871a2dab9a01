//! Points, the bounding box and oriented lines on the integer grid.
//!
//! Coordinates are fixed-point: a grid step stands for whatever resolution the
//! caller picks, and all coordinates stay within `COORD_MAX` of the origin so
//! that every determinant the tessellation needs fits in 128 bits.

use vstd::prelude::*;
use vstd::arithmetic::div_mod::{lemma_fundamental_div_mod, lemma_fundamental_div_mod_converse};
use crate::algebra::{V3, dot, cross, det};

verus! {

/// Largest absolute coordinate of a site or of a box bound.
pub const COORD_MAX: i64 = 1_048_576;

/// Largest absolute normal component of a line.
pub const NORMAL_MAX: i64 = 4_194_304;

/// Largest absolute offset of a line.
pub const OFFSET_MAX: i64 = 2_199_023_255_552;

/// A grid point.
#[derive(Clone, Copy, Debug, PartialEq, Eq, Structural)]
pub struct Point {
    pub x: i64,
    pub y: i64,
}

impl Point {
    pub open spec fn in_range(self) -> bool {
        -COORD_MAX <= self.x <= COORD_MAX && -COORD_MAX <= self.y <= COORD_MAX
    }

    /// The point in homogeneous coordinates.
    pub open spec fn homog(self) -> V3 {
        V3 { x: self.x as int, y: self.y as int, w: 1 }
    }

    pub fn new(x: i64, y: i64) -> (p: Point)
        ensures
            p.x == x,
            p.y == y,
    {
        Point { x, y }
    }

    /// Componentwise difference `self - other`.
    pub fn minus(self, other: Point) -> (d: Point)
        requires
            self.in_range(),
            other.in_range(),
        ensures
            d.x == self.x - other.x,
            d.y == self.y - other.y,
    {
        Point { x: self.x - other.x, y: self.y - other.y }
    }

    /// Both coordinates multiplied by `k`, or `None` when a product leaves the 64-bit range.
    pub fn scaled(self, k: i64) -> (r: Option<Point>)
        ensures
            match r {
                Some(p) => p.x == self.x * k && p.y == self.y * k,
                None => !(i64::MIN <= self.x * k <= i64::MAX && i64::MIN <= self.y * k
                    <= i64::MAX),
            },
    {
        let x = self.x.checked_mul(k);
        let y = self.y.checked_mul(k);
        match (x, y) {
            (Some(x), Some(y)) => Some(Point { x, y }),
            _ => None,
        }
    }
}

/// Two sites count as coincident when neither coordinate differs by more than
/// this many grid steps. The arithmetic is exact, so distinct grid points are
/// always told apart and the tolerance is zero; a caller who wants a wider one
/// works on a coarser grid.
pub const COINCIDENCE_TOLERANCE: i64 = 0;

/// The two points are coincident.
pub open spec fn coincide(p: Point, q: Point) -> bool {
    &&& -COINCIDENCE_TOLERANCE <= p.x - q.x <= COINCIDENCE_TOLERANCE
    &&& -COINCIDENCE_TOLERANCE <= p.y - q.y <= COINCIDENCE_TOLERANCE
}

/// Whether the two points are coincident.
pub fn coincident(p: &Point, q: &Point) -> (b: bool)
    ensures
        b == coincide(*p, *q),
{
    p.x == q.x && p.y == q.y
}

/// An axis-parallel rectangle, given by its centre and half-extents.
#[derive(Clone, Copy, Debug, PartialEq, Eq, Structural)]
pub struct BoundingBox {
    pub center: Point,
    pub half_width: i64,
    pub half_height: i64,
}

impl BoundingBox {
    /// Positive area, and all four bounds within the coordinate range.
    pub open spec fn wf(self) -> bool {
        &&& self.half_width > 0
        &&& self.half_height > 0
        &&& -COORD_MAX <= self.center.x - self.half_width
        &&& self.center.x + self.half_width <= COORD_MAX
        &&& -COORD_MAX <= self.center.y - self.half_height
        &&& self.center.y + self.half_height <= COORD_MAX
    }

    pub open spec fn x_min(self) -> int {
        self.center.x - self.half_width
    }

    pub open spec fn x_max(self) -> int {
        self.center.x + self.half_width
    }

    pub open spec fn y_min(self) -> int {
        self.center.y - self.half_height
    }

    pub open spec fn y_max(self) -> int {
        self.center.y + self.half_height
    }

    /// The grid point `p` lies in the closed box.
    pub open spec fn holds(self, p: Point) -> bool {
        self.x_min() <= p.x <= self.x_max() && self.y_min() <= p.y <= self.y_max()
    }

    /// The rational point `z` (with `z.w > 0`) lies in the closed box.
    pub open spec fn holds_point(self, z: V3) -> bool {
        &&& self.x_min() * z.w <= z.x <= self.x_max() * z.w
        &&& self.y_min() * z.w <= z.y <= self.y_max() * z.w
    }

    /// The rational point `z` (with `z.w > 0`) lies in the interior of the box.
    pub open spec fn holds_point_strictly(self, z: V3) -> bool {
        &&& self.x_min() * z.w < z.x < self.x_max() * z.w
        &&& self.y_min() * z.w < z.y < self.y_max() * z.w
    }

    /// The box with the given centre and half-extents, or `None` when an extent
    /// is not positive or a bound leaves the coordinate range.
    pub fn new(center: Point, half_width: i64, half_height: i64) -> (r: Option<BoundingBox>)
        ensures
            r.is_some() <==> (BoundingBox { center, half_width, half_height }).wf(),
            r.is_some() ==> r.unwrap() == (BoundingBox { center, half_width, half_height }),
    {
        if half_width <= 0 || half_height <= 0 || half_width > COORD_MAX || half_height
            > COORD_MAX {
            return None;
        }
        if center.x < -COORD_MAX || center.x > COORD_MAX || center.y < -COORD_MAX || center.y
            > COORD_MAX {
            return None;
        }
        if center.x - half_width < -COORD_MAX || center.x + half_width > COORD_MAX || center.y
            - half_height < -COORD_MAX || center.y + half_height > COORD_MAX {
            return None;
        }
        Some(BoundingBox { center, half_width, half_height })
    }

    /// The square around the origin that reaches `half_width` in each direction.
    pub fn new_centered_square(half_width: i64) -> (b: BoundingBox)
        requires
            0 < half_width <= COORD_MAX,
        ensures
            b.wf(),
            b.center == (Point { x: 0, y: 0 }),
            b.half_width == half_width,
            b.half_height == half_width,
    {
        BoundingBox { center: Point { x: 0, y: 0 }, half_width, half_height: half_width }
    }

    pub fn left(&self) -> (v: i64)
        requires
            self.wf(),
        ensures
            v == self.x_min(),
    {
        self.center.x - self.half_width
    }

    pub fn right(&self) -> (v: i64)
        requires
            self.wf(),
        ensures
            v == self.x_max(),
    {
        self.center.x + self.half_width
    }

    pub fn bottom(&self) -> (v: i64)
        requires
            self.wf(),
        ensures
            v == self.y_min(),
    {
        self.center.y - self.half_height
    }

    pub fn top(&self) -> (v: i64)
        requires
            self.wf(),
        ensures
            v == self.y_max(),
    {
        self.center.y + self.half_height
    }

    pub fn is_inside(&self, p: &Point) -> (b: bool)
        requires
            self.wf(),
        ensures
            b == self.holds(*p),
    {
        self.left() <= p.x && p.x <= self.right() && self.bottom() <= p.y && p.y <= self.top()
    }
}

/// An oriented line `a·X + b·Y + c = 0`; its closed half-plane is `a·X + b·Y + c <= 0`.
#[derive(Clone, Copy, Debug, PartialEq, Eq, Structural)]
pub struct Line {
    pub a: i64,
    pub b: i64,
    pub c: i64,
}

impl View for Line {
    type V = V3;

    open spec fn view(&self) -> V3 {
        V3 { x: self.a as int, y: self.b as int, w: self.c as int }
    }
}

impl Line {
    /// The coefficients are small enough for exact 128-bit determinants.
    pub open spec fn bounded(self) -> bool {
        &&& -NORMAL_MAX <= self.a <= NORMAL_MAX
        &&& -NORMAL_MAX <= self.b <= NORMAL_MAX
        &&& -OFFSET_MAX <= self.c <= OFFSET_MAX
    }
}

/// The squared distance from `z` to the grid point `p`, scaled by `z.w` squared.
pub open spec fn dist2(z: V3, p: Point) -> int {
    (z.x - p.x * z.w) * (z.x - p.x * z.w) + (z.y - p.y * z.w) * (z.y - p.y * z.w)
}

/// The line of points equidistant from `p` and `q`, oriented so that `p` is inside.
pub open spec fn bisector_of(p: Point, q: Point) -> V3 {
    V3 {
        x: 2 * (q.x - p.x),
        y: 2 * (q.y - p.y),
        w: p.x * p.x + p.y * p.y - q.x * q.x - q.y * q.y,
    }
}

pub proof fn lemma_product_bound(a: int, b: int, ma: int, mb: int)
    by (nonlinear_arith)
    requires
        -ma <= a <= ma,
        -mb <= b <= mb,
    ensures
        -(ma * mb) <= a * b <= ma * mb,
{
}

/// The half-plane of `bisector_of(p, q)` holds exactly the points at least as near to `p` as to `q`.
pub proof fn lemma_bisector_nearer(p: Point, q: Point, z: V3)
    requires
        z.w > 0,
    ensures
        dot(bisector_of(p, q), z) <= 0 <==> dist2(z, p) <= dist2(z, q),
        dot(bisector_of(p, q), z) < 0 <==> dist2(z, p) < dist2(z, q),
{
    let l = bisector_of(p, q);
    let px = p.x as int;
    let py = p.y as int;
    let qx = q.x as int;
    let qy = q.y as int;
    assert(dist2(z, p) - dist2(z, q) == z.w * dot(l, z)) by {
        lemma_square_difference(z.x, px, qx, z.w);
        lemma_square_difference(z.y, py, qy, z.w);
        assert(z.w * dot(l, z) == z.w * (2 * (qx - px) * z.x + (px * px - qx * qx) * z.w) + z.w * (2
            * (qy - py) * z.y + (py * py - qy * qy) * z.w)) by (nonlinear_arith)
            requires
                dot(l, z) == 2 * (qx - px) * z.x + 2 * (qy - py) * z.y + (px * px + py * py - qx
                    * qx - qy * qy) * z.w,
        ;
    }
    assert((dot(l, z) <= 0) <==> (z.w * dot(l, z) <= 0)) by (nonlinear_arith)
        requires
            z.w > 0,
    ;
    assert((dot(l, z) < 0) <==> (z.w * dot(l, z) < 0)) by (nonlinear_arith)
        requires
            z.w > 0,
    ;
}

proof fn lemma_square_difference(t: int, p: int, q: int, w: int)
    ensures
        (t - p * w) * (t - p * w) - (t - q * w) * (t - q * w) == w * (2 * (q - p) * t + (p * p - q
            * q) * w),
{
    let a = p * w;
    let b = q * w;
    assert((t - a) * (t - a) == t * t - 2 * (t * a) + a * a) by (nonlinear_arith);
    assert((t - b) * (t - b) == t * t - 2 * (t * b) + b * b) by (nonlinear_arith);
    let x = 2 * (q - p) * t;
    let y = (p * p - q * q) * w;
    assert(w * (x + y) == w * x + w * y) by (nonlinear_arith);
    assert(w * x == 2 * (t * b) - 2 * (t * a)) by (nonlinear_arith)
        requires
            x == 2 * (q - p) * t,
            a == p * w,
            b == q * w,
    ;
    assert(p * p * w * w == a * a) by (nonlinear_arith)
        requires
            a == p * w,
    ;
    assert(q * q * w * w == b * b) by (nonlinear_arith)
        requires
            b == q * w,
    ;
    assert(w * y == p * p * w * w - q * q * w * w) by (nonlinear_arith)
        requires
            y == (p * p - q * q) * w,
    ;
}

/// The bisector of two grid points in range, with `own` on the inside.
pub fn bisector(own: &Point, other: &Point) -> (l: Line)
    requires
        own.in_range(),
        other.in_range(),
    ensures
        l@ == bisector_of(*own, *other),
        l.bounded(),
{
    let a: i64 = 2 * (other.x - own.x);
    let b: i64 = 2 * (other.y - own.y);
    proof {
        lemma_product_bound(own.x as int, own.x as int, COORD_MAX as int, COORD_MAX as int);
        lemma_product_bound(own.y as int, own.y as int, COORD_MAX as int, COORD_MAX as int);
        lemma_product_bound(other.x as int, other.x as int, COORD_MAX as int, COORD_MAX as int);
        lemma_product_bound(other.y as int, other.y as int, COORD_MAX as int, COORD_MAX as int);
        assert(own.x * own.x >= 0 && own.y * own.y >= 0 && other.x * other.x >= 0 && other.y
            * other.y >= 0) by (nonlinear_arith);
    }
    let c: i64 = own.x * own.x + own.y * own.y - other.x * other.x - other.y * other.y;
    Line { a, b, c }
}

/// Largest absolute value of a product of two normal components and one offset.
pub const TRIPLE_MAX: i128 = 38_685_626_227_668_133_590_597_632;

/// Largest absolute value of a product of a normal component and an offset.
pub const PAIR_MAX: i128 = 9_223_372_036_854_775_808;

fn triple(a: i64, b: i64, c: i64) -> (r: i128)
    requires
        -NORMAL_MAX <= a <= NORMAL_MAX,
        -NORMAL_MAX <= b <= NORMAL_MAX,
        -OFFSET_MAX <= c <= OFFSET_MAX,
    ensures
        r == a * b * c,
        -TRIPLE_MAX <= r <= TRIPLE_MAX,
{
    proof {
        lemma_product_bound(a as int, b as int, NORMAL_MAX as int, NORMAL_MAX as int);
        lemma_product_bound(a * b, c as int, NORMAL_MAX * NORMAL_MAX, OFFSET_MAX as int);
    }
    let ab: i128 = (a as i128) * (b as i128);
    ab * (c as i128)
}

fn pair(a: i64, c: i64) -> (r: i128)
    requires
        -NORMAL_MAX <= a <= NORMAL_MAX,
        -OFFSET_MAX <= c <= OFFSET_MAX,
    ensures
        r == a * c,
        -PAIR_MAX <= r <= PAIR_MAX,
{
    proof {
        lemma_product_bound(a as int, c as int, NORMAL_MAX as int, OFFSET_MAX as int);
    }
    (a as i128) * (c as i128)
}

/// The determinant of three lines: the second and third meet in a point, and
/// the sign tells on which side of the first line that point lies.
pub fn det_lines(u: &Line, v: &Line, t: &Line) -> (d: i128)
    requires
        u.bounded(),
        v.bounded(),
        t.bounded(),
    ensures
        d == det(u@, v@, t@),
        -6 * TRIPLE_MAX <= d <= 6 * TRIPLE_MAX,
{
    let m1 = triple(u.a, v.b, t.c);
    let m2 = triple(u.a, t.b, v.c);
    let m3 = triple(u.b, t.a, v.c);
    let m4 = triple(u.b, v.a, t.c);
    let m5 = triple(v.a, t.b, u.c);
    let m6 = triple(v.b, t.a, u.c);
    proof {
        assert(u.a * t.b * v.c == u.a * v.c * t.b) by (nonlinear_arith);
        assert(u.b * t.a * v.c == u.b * v.c * t.a) by (nonlinear_arith);
        assert(v.a * t.b * u.c == u.c * v.a * t.b) by (nonlinear_arith);
        assert(v.b * t.a * u.c == u.c * v.b * t.a) by (nonlinear_arith);
    }
    m1 - m2 + m3 - m4 + m5 - m6
}

/// A point of the plane in homogeneous integer coordinates: `(x / w, y / w)`.
#[derive(Clone, Copy, Debug, PartialEq, Eq, Structural)]
pub struct Vertex {
    pub x: i128,
    pub y: i128,
    pub w: i128,
}

impl View for Vertex {
    type V = V3;

    open spec fn view(&self) -> V3 {
        V3 { x: self.x as int, y: self.y as int, w: self.w as int }
    }
}

impl Vertex {
    /// The coordinates are those of a meeting point of two bounded lines.
    pub open spec fn bounded(self) -> bool {
        &&& -2 * PAIR_MAX <= self.x <= 2 * PAIR_MAX
        &&& -2 * PAIR_MAX <= self.y <= 2 * PAIR_MAX
        &&& -2 * NORMAL_MAX * NORMAL_MAX <= self.w <= 2 * NORMAL_MAX * NORMAL_MAX
    }
}

/// The meeting point of two lines.
pub fn meet(l: &Line, m: &Line) -> (v: Vertex)
    requires
        l.bounded(),
        m.bounded(),
    ensures
        v@ == cross(l@, m@),
        v.bounded(),
{
    let bc = pair(l.b, m.c);
    let cb = pair(m.b, l.c);
    let ca = pair(m.a, l.c);
    let ac = pair(l.a, m.c);
    proof {
        lemma_product_bound(l.a as int, m.b as int, NORMAL_MAX as int, NORMAL_MAX as int);
        lemma_product_bound(l.b as int, m.a as int, NORMAL_MAX as int, NORMAL_MAX as int);
        assert(m.b * l.c == l.c * m.b) by (nonlinear_arith);
        assert(m.a * l.c == l.c * m.a) by (nonlinear_arith);
    }
    let ab: i128 = (l.a as i128) * (m.b as i128);
    let ba: i128 = (l.b as i128) * (m.a as i128);
    Vertex { x: bc - cb, y: ca - ac, w: ab - ba }
}

/// The nearest integer to `n / d`, halves rounded up.
pub open spec fn round_div(n: int, d: int) -> int {
    (2 * n + d) / (2 * d)
}

/// The quotient `n / d` rounded down, for a positive divisor.
pub fn floor_quotient(n: i128, d: i128) -> (q: i128)
    requires
        d > 0,
        n > i128::MIN,
    ensures
        q == n as int / d as int,
{
    if n >= 0 {
        n / d
    } else {
        let neg: i128 = -n;
        let q: i128 = neg / d;
        let r: i128 = neg % d;
        proof {
            lemma_fundamental_div_mod(neg as int, d as int);
            assert(d * q == q * d) by (nonlinear_arith);
            if r == 0 {
                assert((-q) * d == -(q * d)) by (nonlinear_arith);
                lemma_fundamental_div_mod_converse(n as int, d as int, -q, 0);
            } else {
                assert((-q - 1) * d == -(q * d) - d) by (nonlinear_arith);
                lemma_fundamental_div_mod_converse(n as int, d as int, -q - 1, d - r);
            }
        }
        if r == 0 {
            -q
        } else {
            -q - 1
        }
    }
}

/// `round_div(n, d)` for a positive divisor.
pub fn rounded_quotient(n: i128, d: i128) -> (q: i128)
    requires
        d > 0,
        -(i128::MAX / 4) <= n <= i128::MAX / 4,
        d <= i128::MAX / 4,
    ensures
        q == round_div(n as int, d as int),
{
    floor_quotient(2 * n + d, 2 * d)
}

/// Rounding keeps a quotient between integer bounds.
pub proof fn lemma_round_between(n: int, d: int, lo: int, hi: int)
    requires
        d > 0,
        lo * d <= n <= hi * d,
    ensures
        lo <= round_div(n, d) <= hi,
{
    let q = (2 * n + d) / (2 * d);
    let r = (2 * n + d) % (2 * d);
    lemma_fundamental_div_mod(2 * n + d, 2 * d);
    assert(2 * n + d == (2 * d) * q + r);
    assert(0 <= r < 2 * d);
    if q < lo {
        assert((2 * d) * q <= (2 * d) * (lo - 1)) by (nonlinear_arith)
            requires
                q <= lo - 1,
                d > 0,
        ;
        assert((2 * d) * (lo - 1) == 2 * (lo * d) - 2 * d) by (nonlinear_arith);
    }
    if q > hi {
        assert((2 * d) * q >= (2 * d) * (hi + 1)) by (nonlinear_arith)
            requires
                q >= hi + 1,
                d > 0,
        ;
        assert((2 * d) * (hi + 1) == 2 * (hi * d) + 2 * d) by (nonlinear_arith);
    }
}

} // verus!
