//! Plan geometry in a local plane: distances, directions and offsets.
//!
//! Positions are offsets from a point close by, in micrometres east and north.
//! Directions are unit vectors in millionths. Lengths are rounded down.
use vstd::prelude::*;
use crate::arith::{abs, max, min, quot, quot_of, WHOLE};

verus! {

/// A position in a local plane.
#[derive(Clone, Copy, Debug, PartialEq, Eq, Structural)]
pub struct Offset {
    pub east: i64,
    pub north: i64,
}

/// A unit direction, in millionths.
#[derive(Clone, Copy, Debug, PartialEq, Eq, Structural)]
pub struct Direction {
    pub east: i32,
    pub north: i32,
}

/// How far a local plane reaches: about a kilometre.
pub const PLANE_UM: i64 = 0x2000_0000;

pub open spec fn is_local(p: Offset) -> bool {
    -PLANE_UM <= p.east <= PLANE_UM && -PLANE_UM <= p.north <= PLANE_UM
}

/// The squared length of a vector.
pub open spec fn norm(e: int, n: int) -> int {
    e * e + n * n
}

/// The product of two vectors' lengths and the cosine between them.
pub open spec fn dot(ae: int, an: int, be: int, bn: int) -> int {
    ae * be + an * bn
}

/// The product of two vectors' lengths and the sine between them.
pub open spec fn cross(ae: int, an: int, be: int, bn: int) -> int {
    ae * bn - an * be
}

// ---------------------------------------------------------------------------
// Square roots.
// ---------------------------------------------------------------------------

/// Whether `r` is the square root of `n`, rounded down.
pub open spec fn is_root(n: int, r: int) -> bool {
    0 <= r && r * r <= n < (r + 1) * (r + 1)
}

/// A number has one square root.
pub proof fn a_root_is_unique(n: int, r: int, s: int)
    requires
        is_root(n, r),
        is_root(n, s),
    ensures
        r == s,
{
    if r < s {
        assert((r + 1) * (r + 1) <= s * s) by (nonlinear_arith)
            requires
                0 <= r,
                r + 1 <= s,
        ;
    }
    if s < r {
        assert((s + 1) * (s + 1) <= r * r) by (nonlinear_arith)
            requires
                0 <= s,
                s + 1 <= r,
        ;
    }
}

/// The square root of a number, rounded down.
pub open spec fn root(n: int) -> int {
    choose|r: int| is_root(n, r)
}

/// The square root, rounded down.
pub fn isqrt(n: u128) -> (r: u64)
    requires
        n < 0x4000_0000_0000_0000_0000_0000_0000_0000,
    ensures
        is_root(n as int, r as int),
        r == root(n as int),
{
    let mut lo: u64 = 0;
    let mut hi: u64 = 0x8000_0000_0000_0000;
    while hi - lo > 1
        invariant
            n < 0x4000_0000_0000_0000_0000_0000_0000_0000,
            lo < hi <= 0x8000_0000_0000_0000,
            lo * lo <= n < hi * hi,
        decreases hi - lo,
    {
        let mid: u64 = lo + (hi - lo) / 2;
        assert(mid * mid <= 0x4000_0000_0000_0000_0000_0000_0000_0000) by (nonlinear_arith)
            requires
                mid <= 0x8000_0000_0000_0000,
        ;
        if mid as u128 * mid as u128 <= n {
            lo = mid;
        } else {
            hi = mid;
        }
    }
    proof {
        assert(hi == lo + 1);
        a_root_is_unique(n as int, lo as int, root(n as int));
    }
    lo
}

proof fn lemma_product(a: int, b: int, m: int)
    requires
        -m <= a <= m,
        -m <= b <= m,
    ensures
        -(m * m) <= a * b <= m * m,
{
    assert(-(m * m) <= a * b <= m * m) by (nonlinear_arith)
        requires
            -m <= a <= m,
            -m <= b <= m,
    ;
}

/// The most a product of two local vectors' components comes to, twice.
pub const PRODUCT_LIMIT: i128 = 0x2000_0000_0000_0000;

fn products(ae: i64, an: i64, be: i64, bn: i64) -> (out: (i128, i128))
    requires
        -2 * PLANE_UM <= ae <= 2 * PLANE_UM,
        -2 * PLANE_UM <= an <= 2 * PLANE_UM,
        -2 * PLANE_UM <= be <= 2 * PLANE_UM,
        -2 * PLANE_UM <= bn <= 2 * PLANE_UM,
    ensures
        out.0 == dot(ae as int, an as int, be as int, bn as int),
        out.1 == cross(ae as int, an as int, be as int, bn as int),
        -PRODUCT_LIMIT <= out.0 <= PRODUCT_LIMIT,
        -PRODUCT_LIMIT <= out.1 <= PRODUCT_LIMIT,
{
    proof {
        lemma_product(ae as int, be as int, 0x4000_0000);
        lemma_product(an as int, bn as int, 0x4000_0000);
        lemma_product(ae as int, bn as int, 0x4000_0000);
        lemma_product(an as int, be as int, 0x4000_0000);
    }
    (
        ae as i128 * be as i128 + an as i128 * bn as i128,
        ae as i128 * bn as i128 - an as i128 * be as i128,
    )
}

proof fn lemma_norm(e: int, n: int)
    ensures
        norm(e, n) >= 0,
        norm(e, n) == 0 ==> e == 0 && n == 0,
        dot(e, n, e, n) == norm(e, n),
{
    assert(e * e >= 0 && n * n >= 0) by (nonlinear_arith);
    assert(e * e == 0 ==> e == 0) by (nonlinear_arith);
    assert(n * n == 0 ==> n == 0) by (nonlinear_arith);
}

/// How far a position lies from the origin of its plane.
pub fn length(p: Offset) -> (d: u64)
    requires
        -2 * PLANE_UM <= p.east <= 2 * PLANE_UM,
        -2 * PLANE_UM <= p.north <= 2 * PLANE_UM,
    ensures
        is_root(norm(p.east as int, p.north as int), d as int),
        d == root(norm(p.east as int, p.north as int)),
{
    let (n, _): (i128, i128) = products(p.east, p.north, p.east, p.north);
    proof {
        lemma_norm(p.east as int, p.north as int);
    }
    isqrt(n as u128)
}

// ---------------------------------------------------------------------------
// The nearest point of a segment.
// ---------------------------------------------------------------------------

/// The point of a segment nearest to the origin: how far it lies, and how far
/// along the segment, in millionths.
#[derive(Clone, Copy, Debug, PartialEq, Eq, Structural)]
pub struct Foot {
    pub distance: u64,
    pub along: u32,
}

/// The squared distance from the origin to a segment, rounded down.
pub open spec fn segment_norm(a: Offset, b: Offset) -> int {
    let (de, dn) = (b.east - a.east, b.north - a.north);
    let reach = -dot(a.east as int, a.north as int, de, dn);
    if reach <= 0 {
        norm(a.east as int, a.north as int)
    } else if reach >= norm(de, dn) {
        norm(b.east as int, b.north as int)
    } else {
        let c = cross(a.east as int, a.north as int, de, dn);
        (c * c) / norm(de, dn)
    }
}

/// How far along a segment its point nearest to the origin lies, in millionths.
pub open spec fn segment_along(a: Offset, b: Offset) -> int {
    let (de, dn) = (b.east - a.east, b.north - a.north);
    let reach = -dot(a.east as int, a.north as int, de, dn);
    if reach <= 0 {
        0
    } else if reach >= norm(de, dn) {
        WHOLE as int
    } else {
        (reach * WHOLE) / norm(de, dn)
    }
}

/// The point of the segment from `a` to `b` nearest to the origin.
pub fn to_segment(a: Offset, b: Offset) -> (out: Foot)
    requires
        is_local(a),
        is_local(b),
    ensures
        out.distance == root(segment_norm(a, b)),
        is_root(segment_norm(a, b), out.distance as int),
        out.along == segment_along(a, b),
        out.along <= WHOLE,
{
    let (de, dn): (i64, i64) = (b.east - a.east, b.north - a.north);
    let (near, c): (i128, i128) = products(a.east, a.north, de, dn);
    let (len, _): (i128, i128) = products(de, dn, de, dn);
    proof {
        lemma_norm(de as int, dn as int);
    }
    let reach: i128 = -near;
    if reach <= 0 {
        Foot { distance: length(a), along: 0 }
    } else if reach >= len {
        Foot { distance: length(b), along: WHOLE }
    } else {
        proof {
            lemma_product(c as int, c as int, PRODUCT_LIMIT as int);
            assert(c * c >= 0) by (nonlinear_arith);
            assert(0 <= (reach * WHOLE) / (len as int) <= WHOLE) by (nonlinear_arith)
                requires
                    0 < reach < len,
            ;
            assert(0 <= (c * c) / (len as int) <= c * c) by (nonlinear_arith)
                requires
                    len > 0,
                    c * c >= 0,
            ;
        }
        Foot {
            distance: isqrt((c * c) as u128 / len as u128),
            along: ((reach as u128 * WHOLE as u128) / len as u128) as u32,
        }
    }
}

proof fn lemma_square(a: int, b: int)
    ensures
        (a + b) * (a + b) == a * a + 2 * (a * b) + b * b,
{
    assert((a + b) * (a + b) == a * a + 2 * (a * b) + b * b) by (nonlinear_arith);
}

proof fn lemma_swap(a: int, b: int, c: int, d: int)
    ensures
        (a * b) * (c * d) == (a * c) * (b * d),
{
    assert((a * b) * (c * d) == (a * c) * (b * d)) by (nonlinear_arith);
}

proof fn lemma_spread(a: int, b: int, c: int)
    ensures
        a * (b + c) == a * b + a * c,
        (b + c) * a == b * a + c * a,
{
    assert(a * (b + c) == a * b + a * c && (b + c) * a == b * a + c * a) by (nonlinear_arith);
}

/// A vector scaled and moved along another.
pub proof fn lemma_norm_along(ae: int, an: int, de: int, dn: int, m: int, n: int)
    ensures
        norm(m * ae + n * de, m * an + n * dn) == (m * m) * norm(ae, an) + 2 * ((m * n) * dot(ae, an, de, dn)) + (n * n)
            * norm(de, dn),
{
    lemma_square(m * ae, n * de);
    lemma_square(m * an, n * dn);
    lemma_swap(m, ae, m, ae);
    lemma_swap(m, an, m, an);
    lemma_swap(n, de, n, de);
    lemma_swap(n, dn, n, dn);
    lemma_swap(m, ae, n, de);
    lemma_swap(m, an, n, dn);
    lemma_spread(m * m, ae * ae, an * an);
    lemma_spread(n * n, de * de, dn * dn);
    lemma_spread(m * n, ae * de, an * dn);
}

/// The squares of the cosine and of the sine add up.
pub proof fn lemma_squares_add_up(ae: int, an: int, de: int, dn: int)
    ensures
        norm(ae, an) * norm(de, dn) == dot(ae, an, de, dn) * dot(ae, an, de, dn) + cross(ae, an, de, dn) * cross(
            ae,
            an,
            de,
            dn,
        ),
{
    lemma_square(ae * de, an * dn);
    lemma_square(ae * dn, -(an * de));
    lemma_swap(ae, de, ae, de);
    lemma_swap(an, dn, an, dn);
    lemma_swap(ae, dn, ae, dn);
    lemma_swap(an, de, an, de);
    lemma_swap(ae, de, an, dn);
    lemma_swap(ae, dn, an, de);
    assert(de * dn == dn * de) by (nonlinear_arith);
    assert((ae * dn) * (-(an * de)) == -((ae * dn) * (an * de))) by (nonlinear_arith);
    assert((-(an * de)) * (-(an * de)) == (an * de) * (an * de)) by (nonlinear_arith);
    lemma_spread(norm(ae, an), de * de, dn * dn);
    lemma_spread(de * de, ae * ae, an * an);
    lemma_spread(dn * dn, ae * ae, an * an);
}

/// The squared distance of a point along a line, times the line's own squared
/// length: what it lies along the line and what it lies off it.
pub proof fn lemma_scaled_norm(a: int, near: int, c: int, l: int, m: int, n: int, here: int)
    requires
        a * l == near * near + c * c,
        here == (m * m) * a + 2 * ((m * n) * near) + (n * n) * l,
    ensures
        here * l == (m * near + n * l) * (m * near + n * l) + (m * m) * (c * c),
{
    lemma_square(m * near, n * l);
    lemma_swap(m, near, m, near);
    lemma_swap(n, l, n, l);
    lemma_swap(m, near, n, l);
    assert(here * l == ((m * m) * a) * l + 2 * (((m * n) * near) * l) + ((n * n) * l) * l) by (nonlinear_arith)
        requires
            here == (m * m) * a + 2 * ((m * n) * near) + (n * n) * l,
    ;
    assert(((m * m) * a) * l == (m * m) * (a * l)) by (nonlinear_arith);
    assert(((m * n) * near) * l == (m * n) * (near * l)) by (nonlinear_arith);
    assert(((n * n) * l) * l == (n * n) * (l * l)) by (nonlinear_arith);
    lemma_spread(m * m, near * near, c * c);
}

/// No point of a segment is nearer than its nearest one: at `n` of `m` parts
/// along it the squared distance is at least that of the nearest point.
pub proof fn no_point_of_a_segment_is_nearer(a: Offset, b: Offset, n: int, m: int)
    requires
        0 <= n <= m,
        0 < m,
    ensures
        norm(m * a.east + n * (b.east - a.east), m * a.north + n * (b.north - a.north)) >= (m * m) * segment_norm(a, b),
{
    let (ae, an) = (a.east as int, a.north as int);
    let (de, dn) = (b.east - ae, b.north - an);
    let (l, near, c) = (norm(de, dn), dot(ae, an, de, dn), cross(ae, an, de, dn));
    let here = norm(m * ae + n * de, m * an + n * dn);
    lemma_norm(de, dn);
    lemma_norm_along(ae, an, de, dn, m, n);
    assert(m * n >= 0 && n * n >= 0 && m * m > 0) by (nonlinear_arith)
        requires
            0 <= n,
            0 < m,
    ;
    if near >= 0 {
        assert((m * n) * near >= 0 && (n * n) * l >= 0) by (nonlinear_arith)
            requires
                m * n >= 0,
                n * n >= 0,
                near >= 0,
                l >= 0,
        ;
    } else if -near >= l {
        let k = n - m;
        let (be, bn) = (b.east as int, b.north as int);
        lemma_norm_along(be, bn, de, dn, m, k);
        assert(m * be + k * de == m * ae + n * de) by (nonlinear_arith)
            requires
                be == ae + de,
                k == n - m,
        ;
        assert(m * bn + k * dn == m * an + n * dn) by (nonlinear_arith)
            requires
                bn == an + dn,
                k == n - m,
        ;
        lemma_spread(de, ae, de);
        lemma_spread(dn, an, dn);
        let far = dot(be, bn, de, dn);
        assert(far == near + l);
        assert((m * k) * far >= 0 && (k * k) * l >= 0) by (nonlinear_arith)
            requires
                k <= 0,
                0 < m,
                far <= 0,
                l >= 0,
        {
            assert(m * k <= 0) by (nonlinear_arith)
                requires
                    k <= 0,
                    0 < m,
            ;
            assert(k * k >= 0) by (nonlinear_arith);
        }
    } else {
        lemma_squares_add_up(ae, an, de, dn);
        lemma_scaled_norm(norm(ae, an), near, c, l, m, n, here);
        let s = m * near + n * l;
        assert(s * s >= 0) by (nonlinear_arith);
        let q = (c * c) / l;
        assert(q * l <= c * c) by (nonlinear_arith)
            requires
                q == (c * c) / l,
                l > 0,
        ;
        assert((m * m) * (q * l) <= (m * m) * (c * c)) by (nonlinear_arith)
            requires
                q * l <= c * c,
                m * m > 0,
        ;
        assert((m * m) * (q * l) == ((m * m) * q) * l) by (nonlinear_arith);
        assert(here >= (m * m) * q) by (nonlinear_arith)
            requires
                here * l >= ((m * m) * q) * l,
                l > 0,
        ;
    }
}

// ---------------------------------------------------------------------------
// Directions.
// ---------------------------------------------------------------------------

/// One part of a vector's direction, in millionths.
pub open spec fn unit_part(c: int, len: int) -> int {
    quot(c * WHOLE, len)
}

/// The direction of a vector, if it has one.
pub open spec fn direction_of(e: int, n: int) -> Option<Direction> {
    let len = root(norm(e, n));
    if len == 0 {
        None
    } else {
        Some(Direction { east: unit_part(e, len) as i32, north: unit_part(n, len) as i32 })
    }
}

/// Whether no part of a direction is longer than the whole.
pub open spec fn is_direction(d: Direction) -> bool {
    -WHOLE <= d.east <= WHOLE && -WHOLE <= d.north <= WHOLE
}

proof fn lemma_part_within(c: int, other: int, len: int)
    requires
        is_root(c * c + other * other, len),
    ensures
        -len <= c <= len,
{
    assert(other * other >= 0) by (nonlinear_arith);
    assert(-len <= c <= len) by (nonlinear_arith)
        requires
            c * c < (len + 1) * (len + 1),
            len >= 0,
    ;
}

proof fn lemma_unit_part(c: int, len: int)
    requires
        len > 0,
        -len <= c <= len,
    ensures
        -WHOLE <= unit_part(c, len) <= WHOLE,
{
    if c >= 0 {
        assert(c * WHOLE >= 0 && (c * WHOLE) / len <= WHOLE && (c * WHOLE) / len >= 0) by (nonlinear_arith)
            requires
                0 <= c <= len,
                len > 0,
        ;
    } else {
        let k = -c;
        assert(c * WHOLE == -(k * WHOLE)) by (nonlinear_arith)
            requires
                k == -c,
        ;
        assert(k * WHOLE > 0 && (k * WHOLE) / len <= WHOLE && (k * WHOLE) / len >= 0) by (nonlinear_arith)
            requires
                0 < k <= len,
                len > 0,
        ;
    }
}

/// The direction of a vector, if it has one.
pub fn direction(v: Offset) -> (out: Option<Direction>)
    requires
        -2 * PLANE_UM <= v.east <= 2 * PLANE_UM,
        -2 * PLANE_UM <= v.north <= 2 * PLANE_UM,
    ensures
        out == direction_of(v.east as int, v.north as int),
        out is None <==> v.east == 0 && v.north == 0,
        out matches Some(d) ==> is_direction(d),
{
    let len: u64 = length(v);
    let ghost (e, n) = (v.east as int, v.north as int);
    proof {
        lemma_norm(e, n);
        assert(e == 0 && n == 0 ==> norm(e, n) == 0);
        assert(norm(e, n) == 0 ==> len == 0) by (nonlinear_arith)
            requires
                len * len <= norm(e, n),
                len >= 0,
        ;
        assert(norm(e, n) > 0 ==> len > 0) by (nonlinear_arith)
            requires
                norm(e, n) < (len + 1) * (len + 1),
                len >= 0,
        ;
        assert(norm(e, n) == n * n + e * e);
        lemma_part_within(e, n, len as int);
        lemma_part_within(n, e, len as int);
    }
    if len == 0 {
        return None;
    }
    proof {
        lemma_unit_part(e, len as int);
        lemma_unit_part(n, len as int);
    }
    Some(
        Direction {
            east: quot_of(v.east as i128 * WHOLE as i128, len as u128) as i32,
            north: quot_of(v.north as i128 * WHOLE as i128, len as u128) as i32,
        },
    )
}

/// The chord a line's normal at a vertex is square to: between the vertices
/// before and after it.
pub open spec fn chord_at(pts: Seq<Offset>, i: int) -> (int, int) {
    let (a, b) = (pts[max(i - 1, 0)], pts[min(i + 1, pts.len() - 1)]);
    (b.east - a.east, b.north - a.north)
}

/// The normal of a line at a vertex, towards its left (side 0) or right, and
/// nothing where the line has no direction there.
pub open spec fn normal_of(pts: Seq<Offset>, i: int, side: int) -> Direction {
    let (e, n) = chord_at(pts, i);
    let out = if side == 0 {
        direction_of(-n, e)
    } else {
        direction_of(n, -e)
    };
    match out {
        Some(d) => d,
        None => Direction { east: 0, north: 0 },
    }
}

/// The normal of a line at a vertex, towards its left (side 0) or right.
pub fn normal_at(pts: &[Offset], i: usize, side: u8) -> (out: Direction)
    requires
        i < pts@.len(),
        forall|k: int| 0 <= k < pts@.len() ==> is_local(#[trigger] pts@[k]),
    ensures
        out == normal_of(pts@, i as int, side as int),
        is_direction(out),
{
    let j: usize = if i > 0 {
        i - 1
    } else {
        0
    };
    let k: usize = if i < pts.len() - 1 {
        i + 1
    } else {
        pts.len() - 1
    };
    let (a, b): (Offset, Offset) = (pts[j], pts[k]);
    assert(is_local(pts@[j as int]) && is_local(pts@[k as int]));
    let (e, n): (i64, i64) = (b.east - a.east, b.north - a.north);
    let across: Offset = if side == 0 {
        Offset { east: -n, north: e }
    } else {
        Offset { east: n, north: -e }
    };
    match direction(across) {
        Some(d) => d,
        None => Direction { east: 0, north: 0 },
    }
}

/// The two sides of a line lie opposite each other.
pub proof fn left_and_right_are_opposite(pts: Seq<Offset>, i: int)
    requires
        0 <= i < pts.len(),
        forall|k: int| 0 <= k < pts.len() ==> is_local(#[trigger] pts[k]),
    ensures
        normal_of(pts, i, 1).east == -normal_of(pts, i, 0).east,
        normal_of(pts, i, 1).north == -normal_of(pts, i, 0).north,
{
    let (e, n) = chord_at(pts, i);
    assert(is_local(pts[max(i - 1, 0)]) && is_local(pts[min(i + 1, pts.len() - 1)]));
    assert(norm(-n, e) == norm(n, -e)) by (nonlinear_arith)
        requires
            norm(-n, e) == (-n) * (-n) + e * e,
            norm(n, -e) == n * n + (-e) * (-e),
    ;
    lemma_norm(-n, e);
    lemma_root_exists(norm(-n, e));
    let len = root(norm(-n, e));
    if len != 0 {
        assert(norm(-n, e) == e * e + (-n) * (-n));
        lemma_part_within(-n, e, len);
        lemma_part_within(e, -n, len);
        lemma_unit_part(-n, len);
        lemma_unit_part(e, len);
        lemma_unit_part_opposite(n, len);
        lemma_unit_part_opposite(e, len);
    }
}

proof fn lemma_unit_part_opposite(c: int, len: int)
    requires
        len > 0,
    ensures
        unit_part(-c, len) == -unit_part(c, len),
{
    assert((-c) * WHOLE == -(c * WHOLE)) by (nonlinear_arith);
    assert(0int / len == 0) by (nonlinear_arith)
        requires
            len > 0,
    ;
}

pub proof fn lemma_root_exists(n: int)
    requires
        0 <= n,
    ensures
        is_root(n, root(n)),
    decreases n,
{
    if n == 0 {
        assert(is_root(0, 0));
    } else {
        lemma_root_exists(n - 1);
        let r = root(n - 1);
        if n < (r + 1) * (r + 1) {
            assert(is_root(n, r));
        } else {
            assert((r + 1) * (r + 1) <= n < (r + 2) * (r + 2)) by (nonlinear_arith)
                requires
                    n - 1 < (r + 1) * (r + 1),
                    n >= (r + 1) * (r + 1),
                    r >= 0,
            ;
            assert(is_root(n, r + 1));
        }
    }
}

/// A position moved a distance in a direction.
pub open spec fn moved(p: Offset, d: Direction, by: int) -> (int, int) {
    (p.east + quot(d.east * by, WHOLE as int), p.north + quot(d.north * by, WHOLE as int))
}

fn step(part: i32, by: i64) -> (out: i64)
    requires
        -WHOLE <= part <= WHOLE,
        -PLANE_UM <= by <= PLANE_UM,
    ensures
        out == quot(part * by, WHOLE as int),
        -PLANE_UM <= out <= PLANE_UM,
{
    proof {
        lemma_step(part as int, by as int);
        assert(-536_870_912_000_000 <= part * by <= 536_870_912_000_000) by (nonlinear_arith)
            requires
                -1_000_000 <= part <= 1_000_000,
                -536_870_912 <= by <= 536_870_912,
        ;
    }
    quot_of(part as i128 * by as i128, WHOLE as u128) as i64
}

proof fn lemma_step(part: int, by: int)
    requires
        -WHOLE <= part <= WHOLE,
    ensures
        -abs(by) <= quot(part * by, WHOLE as int) <= abs(by),
{
    let m = abs(by);
    assert(-(1_000_000 * m) <= part * by <= 1_000_000 * m) by (nonlinear_arith)
        requires
            -1_000_000 <= part <= 1_000_000,
            m == by || m == -by,
            m >= 0,
    ;
}

/// A position moved a distance in a direction.
pub fn shift(p: Offset, d: Direction, by: i64) -> (out: Offset)
    requires
        is_local(p),
        is_direction(d),
        -PLANE_UM <= by <= PLANE_UM,
    ensures
        (out.east as int, out.north as int) == moved(p, d, by as int),
{
    Offset { east: p.east + step(d.east, by), north: p.north + step(d.north, by) }
}

/// Moving takes a position no further than the distance asked, east or north.
pub proof fn a_shift_is_no_longer_than_asked(p: Offset, d: Direction, by: int)
    requires
        is_direction(d),
    ensures
        abs(moved(p, d, by).0 - p.east) <= abs(by),
        abs(moved(p, d, by).1 - p.north) <= abs(by),
{
    lemma_step(d.east as int, by);
    lemma_step(d.north as int, by);
}

/// A line's end extended past itself, along its last piece from `q` to `p`. A
/// piece without a direction is not extended.
pub fn extension(p: Offset, q: Offset, over: i64) -> (out: Offset)
    requires
        is_local(p),
        is_local(q),
        -PLANE_UM <= over <= PLANE_UM,
    ensures
        match direction_of(p.east - q.east, p.north - q.north) {
            Some(d) => (out.east as int, out.north as int) == moved(p, d, over as int),
            None => out == p,
        },
{
    match direction(Offset { east: p.east - q.east, north: p.north - q.north }) {
        Some(d) => shift(p, d, over),
        None => p,
    }
}

// ---------------------------------------------------------------------------
// Miters.
// ---------------------------------------------------------------------------

/// The most a miter lengthens a half width, in halves.
pub const MITER_HALVES: i128 = 3;

/// How far one edge of a band stands off a vertex of its centreline, in one
/// coordinate: `c` is that part of the square to the two headings' sum, and
/// `len` the sum's length. The edge stays on the pieces' own offset lines,
/// which lengthens the half width by the inverse of half the sum, and never by
/// more than the cap.
pub open spec fn mitered(c: int, len: int, half: int) -> int {
    if 3 * len < 4 * WHOLE {
        quot(c * half * MITER_HALVES, 2 * len)
    } else if len < 2 * WHOLE {
        quot(c * half * (2 * WHOLE), len * len)
    } else {
        quot(c * half, len)
    }
}

/// Where the left edge of a band stands off a vertex of its centreline, given
/// the headings of the pieces before and after it. A vertex without a heading,
/// or one the line folds back at, has no edge.
pub open spec fn miter_of(before: Option<Direction>, after: Option<Direction>, half: int) -> Option<(int, int)> {
    match (before, after) {
        (Some(p), Some(q)) => {
            let (e, n) = (p.east + q.east, p.north + q.north);
            let len = root(norm(e, n));
            if len == 0 {
                None
            } else {
                Some((mitered(-n, len, half), mitered(e, len, half)))
            }
        },
        (Some(d), None) => Some((quot(-d.north * half, WHOLE as int), quot(d.east * half, WHOLE as int))),
        (None, Some(d)) => Some((quot(-d.north * half, WHOLE as int), quot(d.east * half, WHOLE as int))),
        (None, None) => None,
    }
}

proof fn lemma_twice_quot(a: int, b: int, m: int)
    requires
        b > 0,
        -(b * m) <= 2 * a <= b * m,
    ensures
        -m <= 2 * quot(a, b) <= m,
{
    let k = abs(a);
    let q = k / b;
    assert(2 * q <= m && q >= 0) by (nonlinear_arith)
        requires
            0 <= 2 * k <= b * m,
            b > 0,
            q == k / b,
    {
        assert(q * b <= k && q >= 0) by (nonlinear_arith)
            requires
                0 <= k,
                b > 0,
                q == k / b,
        ;
        assert((2 * q) * b <= m * b) by (nonlinear_arith)
            requires
                q * b <= k,
                2 * k <= b * m,
        ;
        assert(2 * q <= m) by (nonlinear_arith)
            requires
                (2 * q) * b <= m * b,
                b > 0,
        ;
    }
}

proof fn lemma_mitered(c: int, len: int, half: int)
    requires
        0 < len,
        -len <= c <= len,
        0 <= half,
    ensures
        -3 * half <= 2 * mitered(c, len, half) <= 3 * half,
{
    let x = c * half;
    let y = len * half;
    assert(-y <= x <= y && y >= 0) by (nonlinear_arith)
        requires
            x == c * half,
            y == len * half,
            -len <= c <= len,
            0 <= half,
            0 < len,
    ;
    if 3 * len < 4 * WHOLE {
        assert((2 * len) * (3 * half) == 6 * y) by (nonlinear_arith)
            requires
                y == len * half,
        ;
        lemma_twice_quot(x * MITER_HALVES, 2 * len, 3 * half);
    } else if len < 2 * WHOLE {
        assert(len * len > 0) by (nonlinear_arith)
            requires
                len > 0,
        ;
        assert((len * len) * (3 * half) >= 4_000_000 * y) by (nonlinear_arith)
            requires
                y == len * half,
                3 * len >= 4_000_000,
                half >= 0,
                len > 0,
        {
            assert((len * len) * (3 * half) == (3 * len) * y) by (nonlinear_arith)
                requires
                    y == len * half,
            ;
            assert((3 * len) * y >= 4_000_000 * y) by (nonlinear_arith)
                requires
                    3 * len >= 4_000_000,
                    y >= 0,
            ;
        }
        assert(x * (2 * WHOLE) == 2_000_000 * x) by (nonlinear_arith);
        lemma_twice_quot(x * (2 * WHOLE), len * len, 3 * half);
    } else {
        assert(len * (3 * half) == 3 * y) by (nonlinear_arith)
            requires
                y == len * half,
        ;
        lemma_twice_quot(x, len, 3 * half);
    }
}

fn miter_part(c: i64, len: u64, half: i64) -> (out: i64)
    requires
        0 < len <= 4_000_000,
        -len <= c <= len,
        0 <= half <= PLANE_UM,
    ensures
        out == mitered(c as int, len as int, half as int),
{
    proof {
        lemma_mitered(c as int, len as int, half as int);
        assert(-2_147_483_648_000_000 <= c * half <= 2_147_483_648_000_000) by (nonlinear_arith)
            requires
                -4_000_000 <= c <= 4_000_000,
                0 <= half <= 536_870_912,
        ;
        assert(0 < len * len <= 16_000_000_000_000) by (nonlinear_arith)
            requires
                0 < len <= 4_000_000,
        ;
    }
    let x: i128 = c as i128 * half as i128;
    let q: i128 = if 3 * len < 4 * WHOLE as u64 {
        quot_of(x * MITER_HALVES, 2 * len as u128)
    } else if len < 2 * WHOLE as u64 {
        quot_of(x * (2 * WHOLE as i128), len as u128 * len as u128)
    } else {
        quot_of(x, len as u128)
    };
    q as i64
}

/// Where the left edge of a band stands off a vertex of its centreline. The
/// right edge stands as far off the other way.
pub fn miter(before: Option<Direction>, after: Option<Direction>, half: i64) -> (out: Option<Offset>)
    requires
        before matches Some(d) ==> is_direction(d),
        after matches Some(d) ==> is_direction(d),
        0 <= half <= PLANE_UM,
    ensures
        match miter_of(before, after, half as int) {
            Some((e, n)) => out is Some && (out->0).east == e && (out->0).north == n,
            None => out is None,
        },
{
    match (before, after) {
        (Some(p), Some(q)) => {
            let sum: Offset = Offset { east: p.east as i64 + q.east as i64, north: p.north as i64 + q.north as i64 };
            let len: u64 = length(sum);
            if len == 0 {
                return None;
            }
            proof {
                let (e, n) = (sum.east as int, sum.north as int);
                assert(norm(e, n) == n * n + e * e);
                assert(norm(e, n) == (-n) * (-n) + e * e) by (nonlinear_arith)
                    requires
                        norm(e, n) == n * n + e * e,
                ;
                lemma_part_within(-n, e, len as int);
                lemma_part_within(e, n, len as int);
                lemma_product(e, e, 2_000_000);
                lemma_product(n, n, 2_000_000);
                assert(len <= 4_000_000) by (nonlinear_arith)
                    requires
                        len * len <= 8_000_000_000_000,
                ;
            }
            Some(Offset { east: miter_part(-sum.north, len, half), north: miter_part(sum.east, len, half) })
        },
        (Some(d), None) => Some(Offset { east: step(-d.north, half), north: step(d.east, half) }),
        (None, Some(d)) => Some(Offset { east: step(-d.north, half), north: step(d.east, half) }),
        (None, None) => None,
    }
}

/// However sharp the bend, no edge stands off further than one and a half half
/// widths, east or north.
pub proof fn a_miter_never_spikes(before: Option<Direction>, after: Option<Direction>, half: int)
    requires
        before matches Some(d) ==> is_direction(d),
        after matches Some(d) ==> is_direction(d),
        0 <= half,
    ensures
        miter_of(before, after, half) matches Some((e, n)) ==> 2 * abs(e) <= 3 * half && 2 * abs(n) <= 3 * half,
{
    match (before, after) {
        (Some(p), Some(q)) => {
            let (e, n) = (p.east + q.east, p.north + q.north);
            lemma_norm(e, n);
            lemma_root_exists(norm(e, n));
            let len = root(norm(e, n));
            if len != 0 {
                assert(norm(e, n) == n * n + e * e);
                assert(norm(e, n) == (-n) * (-n) + e * e) by (nonlinear_arith)
                    requires
                        norm(e, n) == n * n + e * e,
                ;
                lemma_part_within(-n, e, len);
                lemma_part_within(e, n, len);
                lemma_mitered(-n, len, half);
                lemma_mitered(e, len, half);
            }
        },
        (Some(d), None) => {
            lemma_step(-d.north, half);
            lemma_step(d.east as int, half);
        },
        (None, Some(d)) => {
            lemma_step(-d.north, half);
            lemma_step(d.east as int, half);
        },
        (None, None) => {},
    }
}

/// The nearest point is on the segment: some point along it is as near.
pub proof fn some_point_of_a_segment_is_as_near(a: Offset, b: Offset)
    ensures
        exists|n: int, m: int|
            0 <= n <= m && 0 < m && #[trigger] norm(
                m * a.east + n * (b.east - a.east),
                m * a.north + n * (b.north - a.north),
            ) < (m * m) * (segment_norm(a, b) + 1),
{
    let (ae, an) = (a.east as int, a.north as int);
    let (de, dn) = (b.east - a.east, b.north - a.north);
    let near = dot(ae, an, de, dn);
    let l = norm(de, dn);
    let reach = -near;
    lemma_norm(de, dn);
    if reach <= 0 {
        let (n, m) = (0int, 1int);
        assert(m * ae + n * de == ae && m * an + n * dn == an);
        let far = segment_norm(a, b) + 1;
        assert((m * m) * far == far) by (nonlinear_arith)
            requires
                m == 1,
        ;
        assert(norm(m * ae + n * de, m * an + n * dn) < (m * m) * far);
    } else if reach >= l {
        let (n, m) = (1int, 1int);
        assert(m * ae + n * de == b.east && m * an + n * dn == b.north);
        let far = segment_norm(a, b) + 1;
        assert((m * m) * far == far) by (nonlinear_arith)
            requires
                m == 1,
        ;
        assert(norm(m * ae + n * de, m * an + n * dn) < (m * m) * far);
    } else {
        let (n, m) = (reach, l);
        let c = cross(ae, an, de, dn);
        lemma_norm_along(ae, an, de, dn, m, n);
        lemma_squares_add_up(ae, an, de, dn);
        let here = norm(m * ae + n * de, m * an + n * dn);
        lemma_scaled_norm(norm(ae, an), near, c, l, m, n, here);
        assert(m * near + n * l == 0) by (nonlinear_arith)
            requires
                m == l,
                n == -near,
        ;
        let s = m * near + n * l;
        assert(s * s == 0);
        let q = (c * c) / l;
        assert(c * c < l * (q + 1)) by (nonlinear_arith)
            requires
                l > 0,
                q == (c * c) / l,
        ;
        assert(here < (m * m) * (q + 1)) by (nonlinear_arith)
            requires
                here * l == (m * m) * (c * c),
                m == l,
                l > 0,
                c * c < l * (q + 1),
        ;
    }
}

/// How far along a segment the nearest point lies: none of the way where the
/// segment leads away from its start, all of it where it leads up to its end,
/// and elsewhere to the millionth below where the line is square to the way
/// there.
pub proof fn the_nearest_point_is_square_to_the_segment(a: Offset, b: Offset)
    ensures
        ({
            let (de, dn) = (b.east - a.east, b.north - a.north);
            let reach = -(a.east * de + a.north * dn);
            let len = de * de + dn * dn;
            let t = segment_along(a, b);
            &&& reach <= 0 ==> t == 0
            &&& reach > 0 && reach >= len ==> t == 1_000_000
            &&& 0 < reach < len ==> t * len <= reach * 1_000_000 < (t + 1) * len
        }),
{
    let (de, dn) = (b.east - a.east, b.north - a.north);
    let reach = -dot(a.east as int, a.north as int, de, dn);
    let len = norm(de, dn);
    if 0 < reach < len {
        let top = reach * 1_000_000;
        let t = top / len;
        assert(t * len <= top < (t + 1) * len) by (nonlinear_arith)
            requires
                len > 0,
                t == top / len,
        ;
    }
}

/// A direction is its vector scaled to the whole, each part cut toward nothing.
pub proof fn a_direction_is_its_vector_scaled(c: int, len: int)
    requires
        len > 0,
    ensures
        c >= 0 ==> unit_part(c, len) * len <= c * 1_000_000 < (unit_part(c, len) + 1) * len,
        c < 0 ==> (unit_part(c, len) - 1) * len < c * 1_000_000 <= unit_part(c, len) * len,
{
    crate::arith::a_quotient_is_cut_toward_zero(c * 1_000_000, len);
}

/// A vector has a direction where it has a length: its own two parts over it.
pub proof fn a_vector_with_a_length_has_a_direction(e: int, n: int)
    requires
        -2 * PLANE_UM <= e <= 2 * PLANE_UM,
        -2 * PLANE_UM <= n <= 2 * PLANE_UM,
    ensures
        direction_of(e, n) is None <==> e == 0 && n == 0,
        direction_of(e, n) matches Some(d) ==> {
            let len = root(e * e + n * n);
            d.east == unit_part(e, len) && d.north == unit_part(n, len)
        },
{
    let len = root(norm(e, n));
    lemma_norm(e, n);
    lemma_root_exists(norm(e, n));
    if len == 0 {
        assert(norm(e, n) < 1);
    } else {
        assert(norm(0, 0) == 0);
        if e == 0 && n == 0 {
            assert(len * len <= 0);
            assert(len * len > 0) by (nonlinear_arith)
                requires
                    len > 0,
            ;
        }
        lemma_part_within(e, n, len);
        lemma_part_within(n, e, len);
        lemma_unit_part(e, len);
        lemma_unit_part(n, len);
    }
}

/// The normal of a line at a vertex is square to the way from the vertex before
/// it to the one after it, and stands to the left of it on side nought.
pub proof fn a_normal_stands_to_its_side(pts: Seq<Offset>, i: int)
    requires
        0 < i < pts.len() - 1,
        forall|k: int| 0 <= k < pts.len() ==> is_local(#[trigger] pts[k]),
        pts[i - 1] != pts[i + 1],
    ensures
        ({
            let e = pts[i + 1].east - pts[i - 1].east;
            let n = pts[i + 1].north - pts[i - 1].north;
            let len = root(e * e + n * n);
            let left = normal_of(pts, i, 0);
            &&& len > 0
            &&& left.east == unit_part(-n, len)
            &&& left.north == unit_part(e, len)
            &&& e * left.north - n * left.east >= 0
        }),
{
    let e = pts[i + 1].east - pts[i - 1].east;
    let n = pts[i + 1].north - pts[i - 1].north;
    assert(is_local(pts[i - 1]) && is_local(pts[i + 1]));
    a_vector_with_a_length_has_a_direction(-n, e);
    assert((-n) * (-n) + e * e == e * e + n * n) by (nonlinear_arith);
    let len = root(e * e + n * n);
    lemma_norm(e, n);
    lemma_root_exists(norm(e, n));
    assert(len > 0) by {
        if len == 0 {
            assert(norm(e, n) < 1);
        }
    }
    a_direction_is_its_vector_scaled(-n, len);
    a_direction_is_its_vector_scaled(e, len);
    let (u, v) = (unit_part(-n, len), unit_part(e, len));
    lemma_same_sign(-n, u, len);
    lemma_same_sign(e, v, len);
    assert(e * v >= 0 && -(n * u) >= 0) by (nonlinear_arith)
        requires
            (e >= 0 && v >= 0) || (e <= 0 && v <= 0),
            (-n >= 0 && u >= 0) || (-n <= 0 && u <= 0),
    ;
}

proof fn lemma_same_sign(c: int, u: int, len: int)
    requires
        len > 0,
        c >= 0 ==> u * len <= c * 1_000_000 < (u + 1) * len,
        c < 0 ==> (u - 1) * len < c * 1_000_000 <= u * len,
    ensures
        (c >= 0 && u >= 0) || (c <= 0 && u <= 0),
{
    if c >= 0 {
        assert(u >= 0) by (nonlinear_arith)
            requires
                0 <= c * 1_000_000 < (u + 1) * len,
                len > 0,
        ;
    } else {
        assert(u <= 0) by (nonlinear_arith)
            requires
                (u - 1) * len < c * 1_000_000 < 0,
                len > 0,
        ;
    }
}

/// At its first and last vertex a line's normal is square to its first and last
/// piece.
pub proof fn a_lines_ends_take_their_own_pieces_normal(pts: Seq<Offset>)
    requires
        pts.len() >= 2,
    ensures
        chord_at(pts, 0) == (pts[1].east - pts[0].east, pts[1].north - pts[0].north),
        ({
            let m = pts.len() - 1;
            chord_at(pts, m) == (pts[m].east - pts[m - 1].east, pts[m].north - pts[m - 1].north)
        }),
{
}

/// A shift takes a position as far as asked in the direction, to the micrometre.
pub proof fn a_shift_follows_its_direction(p: Offset, d: Direction, by: int)
    ensures
        -1_000_000 < (moved(p, d, by).0 - p.east) * 1_000_000 - d.east * by < 1_000_000,
        -1_000_000 < (moved(p, d, by).1 - p.north) * 1_000_000 - d.north * by < 1_000_000,
{
    crate::arith::a_quotient_is_cut_toward_zero(d.east * by, 1_000_000);
    crate::arith::a_quotient_is_cut_toward_zero(d.north * by, 1_000_000);
}

/// Between a gentle bend and the cap an edge stays on its pieces' own offset
/// lines: it stands off by the half width times two over the length of the
/// headings' sum; at the cap by one and a half half widths along the square to
/// the sum; and where the headings are one, by the half width.
pub proof fn a_miter_stays_on_its_offset_lines(c: int, len: int, half: int)
    requires
        len > 0,
    ensures
        ({
            let m = mitered(c, len, half);
            &&& 3 * len < 4_000_000 ==> -(2 * len) < m * (2 * len) - 3 * (c * half) < 2 * len
            &&& 4_000_000 <= 3 * len && len < 2_000_000 ==> -(len * len) < m * (len * len) - 2_000_000 * (c * half) < len
                * len
            &&& len >= 2_000_000 ==> -len < m * len - c * half < len
        }),
{
    assert(c * half * 3 == 3 * (c * half));
    if 3 * len < 4_000_000 {
        lemma_quot_near(c * half * 3, 2 * len);
    } else if len < 2_000_000 {
        assert(len * len > 0) by (nonlinear_arith)
            requires
                len > 0,
        ;
        lemma_quot_near(c * half * 2_000_000, len * len);
    } else {
        lemma_quot_near(c * half, len);
    }
}

proof fn lemma_quot_near(a: int, b: int)
    requires
        b > 0,
    ensures
        -b < quot(a, b) * b - a < b,
{
    crate::arith::a_quotient_is_cut_toward_zero(a, b);
    let q = quot(a, b);
    assert((q + 1) * b == q * b + b && (q - 1) * b == q * b - b) by (nonlinear_arith);
}

/// The edge of a band at a vertex stands along the square to the sum of its two
/// headings, to the left; where only one piece has a heading, square to that
/// one; and nowhere where neither has one or the line folds back.
pub proof fn a_miter_stands_square_to_its_headings(before: Option<Direction>, after: Option<Direction>, half: int)
    ensures
        before is None && after is None ==> miter_of(before, after, half) is None,
        before matches Some(p) ==> after matches Some(q) ==> {
            let (e, n) = (p.east + q.east, p.north + q.north);
            let len = root(e * e + n * n);
            &&& len == 0 ==> miter_of(before, after, half) is None
            &&& len != 0 ==> miter_of(before, after, half) == Some((mitered(-n, len, half), mitered(e, len, half)))
        },
        before is None != after is None ==> {
            let d = if before is Some {
                before->0
            } else {
                after->0
            };
            &&& miter_of(before, after, half) is Some
            &&& -1_000_000 < (miter_of(before, after, half)->0).0 * 1_000_000 + d.north * half < 1_000_000
            &&& -1_000_000 < (miter_of(before, after, half)->0).1 * 1_000_000 - d.east * half < 1_000_000
        },
{
    let d = if before is Some {
        before->0
    } else {
        after->0
    };
    lemma_quot_near(-d.north * half, 1_000_000);
    lemma_quot_near(d.east * half, 1_000_000);
    assert(-d.north * half == -(d.north * half)) by (nonlinear_arith);
}

} // verus!
