//! Where a drawn deck begins and ends.
//!
//! Plan positions are quanta of the tile lattice, heights micrometres.
use vstd::prelude::*;
use crate::arith::max;

verus! {

/// One vertex of a deck's mesh.
#[derive(Clone, Copy, Debug, PartialEq, Eq, Structural)]
pub struct DeckVertex {
    pub x: u16,
    pub y: u16,
    pub height: i64,
}

/// One end of a deck: what the plan positions of its vertices add up to, how
/// many they are, and the highest of them. The end lies at their mean.
#[derive(Clone, Copy, Debug, PartialEq, Eq, Structural)]
pub struct EndAt {
    pub x: u64,
    pub y: u64,
    pub count: u64,
    pub top: i64,
}

/// The sum of the first `n` plan positions.
pub open spec fn sum_x(v: Seq<DeckVertex>, n: int) -> int
    decreases n,
{
    if n <= 0 {
        0
    } else {
        sum_x(v, n - 1) + v[n - 1].x
    }
}

pub open spec fn sum_y(v: Seq<DeckVertex>, n: int) -> int
    decreases n,
{
    if n <= 0 {
        0
    } else {
        sum_y(v, n - 1) + v[n - 1].y
    }
}

/// The squared distance of vertex `i` from the point `(x, y) / scale`, times
/// the square of `scale`.
pub open spec fn spread2(v: Seq<DeckVertex>, i: int, scale: int, x: int, y: int) -> int {
    (scale * v[i].x - x) * (scale * v[i].x - x) + (scale * v[i].y - y) * (scale * v[i].y - y)
}

/// The vertex furthest from a point among the first `n`, the earliest on a tie.
pub open spec fn furthest(v: Seq<DeckVertex>, scale: int, x: int, y: int, n: int) -> int
    decreases n,
{
    if n <= 1 {
        0
    } else {
        let best = furthest(v, scale, x, y, n - 1);
        if spread2(v, n - 1, scale, x, y) > spread2(v, best, scale, x, y) {
            n - 1
        } else {
            best
        }
    }
}

/// One end of the long axis: the vertex furthest from the middle of them all.
pub open spec fn axis_from(v: Seq<DeckVertex>) -> int {
    let n = v.len() as int;
    furthest(v, n, sum_x(v, n), sum_y(v, n), n)
}

/// The other end: the vertex furthest from the first.
pub open spec fn axis_to(v: Seq<DeckVertex>) -> int {
    let a = v[axis_from(v)];
    furthest(v, 1, a.x as int, a.y as int, v.len() as int)
}

/// How far vertex `i` lies along the axis, times the axis's length.
pub open spec fn along(v: Seq<DeckVertex>, a: int, b: int, i: int) -> int {
    (v[i].x - v[a].x) * (v[b].x - v[a].x) + (v[i].y - v[a].y) * (v[b].y - v[a].y)
}

/// Whether vertex `i` lies in the outermost tenth of the axis from `a` to `b`
/// at its first end, or at its last.
pub open spec fn at_end(v: Seq<DeckVertex>, a: int, b: int, last: bool, i: int) -> bool {
    if last {
        10 * along(v, a, b, i) >= 9 * along(v, a, b, b)
    } else {
        10 * along(v, a, b, i) <= along(v, a, b, b)
    }
}

/// What the first `n` vertices put into an end.
pub open spec fn end_of(v: Seq<DeckVertex>, a: int, b: int, last: bool, n: int) -> Option<EndAt>
    decreases n,
{
    if n <= 0 {
        None
    } else {
        let rest = end_of(v, a, b, last, n - 1);
        let p = v[n - 1];
        if !at_end(v, a, b, last, n - 1) {
            rest
        } else {
            match rest {
                None => Some(EndAt { x: p.x as u64, y: p.y as u64, count: 1, top: p.height }),
                Some(e) => Some(
                    EndAt {
                        x: (e.x + p.x) as u64,
                        y: (e.y + p.y) as u64,
                        count: (e.count + 1) as u64,
                        top: max(e.top as int, p.height as int) as i64,
                    },
                ),
            }
        }
    }
}

proof fn lemma_sums(v: Seq<DeckVertex>, n: int)
    requires
        0 <= n <= v.len(),
    ensures
        0 <= sum_x(v, n) <= n * 0xffff,
        0 <= sum_y(v, n) <= n * 0xffff,
    decreases n,
{
    if n > 0 {
        lemma_sums(v, n - 1);
        assert((n - 1) * 0xffff + 0xffff == n * 0xffff);
    }
}

/// The furthest vertex is a vertex, and none is further.
pub proof fn none_is_further(v: Seq<DeckVertex>, scale: int, x: int, y: int, n: int)
    requires
        1 <= n <= v.len(),
    ensures
        0 <= furthest(v, scale, x, y, n) < n,
        forall|i: int|
            0 <= i < n ==> (#[trigger] spread2(v, i, scale, x, y)) <= spread2(v, furthest(v, scale, x, y, n), scale, x, y),
    decreases n,
{
    if n > 1 {
        none_is_further(v, scale, x, y, n - 1);
    }
}

proof fn lemma_spread2(v: Seq<DeckVertex>, i: int, scale: int, x: int, y: int)
    requires
        0 <= i < v.len(),
        0 < scale <= 0xffff_ffff,
        0 <= x <= scale * 0xffff,
        0 <= y <= scale * 0xffff,
    ensures
        -(scale * 0xffff) <= scale * v[i].x - x <= scale * 0xffff,
        -(scale * 0xffff) <= scale * v[i].y - y <= scale * 0xffff,
        scale * 0xffff <= 0xffff_ffff * 0xffff,
        0 <= scale * v[i].x <= scale * 0xffff,
        0 <= scale * v[i].y <= scale * 0xffff,
        0 <= (scale * v[i].x - x) * (scale * v[i].x - x) <= 0x1_0000_0000_0000 * 0x1_0000_0000_0000,
        0 <= (scale * v[i].y - y) * (scale * v[i].y - y) <= 0x1_0000_0000_0000 * 0x1_0000_0000_0000,
{
    let (px, py) = (v[i].x as int, v[i].y as int);
    assert(0 <= scale * px <= scale * 0xffff) by (nonlinear_arith)
        requires
            0 < scale,
            0 <= px <= 0xffff,
    ;
    assert(0 <= scale * py <= scale * 0xffff) by (nonlinear_arith)
        requires
            0 < scale,
            0 <= py <= 0xffff,
    ;
    let (dx, dy) = (scale * px - x, scale * py - y);
    let most = 0x1_0000_0000_0000int;
    assert(0 <= dx * dx <= most * most) by (nonlinear_arith)
        requires
            -most <= dx <= most,
    ;
    assert(0 <= dy * dy <= most * most) by (nonlinear_arith)
        requires
            -most <= dy <= most,
    ;
}

fn find_furthest(v: &[DeckVertex], scale: u64, x: u64, y: u64) -> (out: usize)
    requires
        0 < v@.len(),
        0 < scale <= 0xffff_ffff,
        x <= scale * 0xffff,
        y <= scale * 0xffff,
    ensures
        out == furthest(v@, scale as int, x as int, y as int, v@.len() as int),
        out < v@.len(),
{
    let mut best: usize = 0;
    let mut most: i128 = 0;
    let mut i: usize = 0;
    while i < v.len()
        invariant
            i <= v@.len(),
            0 < scale <= 0xffff_ffff,
            x <= scale * 0xffff,
            y <= scale * 0xffff,
            best < v@.len(),
            i == 0 ==> best == 0,
            i > 0 ==> best == furthest(v@, scale as int, x as int, y as int, i as int),
            i > 0 ==> most == spread2(v@, best as int, scale as int, x as int, y as int),
        decreases v@.len() - i,
    {
        proof {
            lemma_spread2(v@, i as int, scale as int, x as int, y as int);
        }
        let dx: i128 = scale as i128 * v[i].x as i128 - x as i128;
        let dy: i128 = scale as i128 * v[i].y as i128 - y as i128;
        let d: i128 = dx * dx + dy * dy;
        if i == 0 || d > most {
            best = i;
            most = d;
        }
        i = i + 1;
    }
    best
}

proof fn lemma_along(v: Seq<DeckVertex>, a: int, b: int, i: int)
    requires
        0 <= a < v.len(),
        0 <= b < v.len(),
        0 <= i < v.len(),
    ensures
        -0x1_0000_0000 <= (v[i].x - v[a].x) * (v[b].x - v[a].x) <= 0x1_0000_0000,
        -0x1_0000_0000 <= (v[i].y - v[a].y) * (v[b].y - v[a].y) <= 0x1_0000_0000,
{
    let (p, q) = (v[i].x - v[a].x, v[b].x - v[a].x);
    let (r, s) = (v[i].y - v[a].y, v[b].y - v[a].y);
    assert(-0x1_0000_0000 <= p * q <= 0x1_0000_0000) by (nonlinear_arith)
        requires
            -0x1_0000 <= p <= 0x1_0000,
            -0x1_0000 <= q <= 0x1_0000,
    ;
    assert(-0x1_0000_0000 <= r * s <= 0x1_0000_0000) by (nonlinear_arith)
        requires
            -0x1_0000 <= r <= 0x1_0000,
            -0x1_0000 <= s <= 0x1_0000,
    ;
}

fn reach_along(v: &[DeckVertex], a: usize, b: usize, i: usize) -> (out: i64)
    requires
        a < v@.len(),
        b < v@.len(),
        i < v@.len(),
    ensures
        out == along(v@, a as int, b as int, i as int),
        -0x2_0000_0000 <= out <= 0x2_0000_0000,
{
    proof {
        lemma_along(v@, a as int, b as int, i as int);
    }
    let (dx, dy) = (v[b].x as i64 - v[a].x as i64, v[b].y as i64 - v[a].y as i64);
    let (px, py) = (v[i].x as i64 - v[a].x as i64, v[i].y as i64 - v[a].y as i64);
    px * dx + py * dy
}

proof fn lemma_end_of(v: Seq<DeckVertex>, a: int, b: int, last: bool, n: int)
    requires
        0 <= n <= v.len(),
        v.len() <= 0xffff_ffff,
    ensures
        match end_of(v, a, b, last, n) {
            Some(e) => e.count <= n && e.x <= n * 0xffff && e.y <= n * 0xffff,
            None => true,
        },
    decreases n,
{
    if n > 0 {
        lemma_end_of(v, a, b, last, n - 1);
        assert((n - 1) * 0xffff + 0xffff == n * 0xffff);
    }
}

fn find_end(v: &[DeckVertex], a: usize, b: usize, last: bool) -> (out: Option<EndAt>)
    requires
        a < v@.len(),
        b < v@.len(),
        v@.len() <= 0xffff_ffff,
    ensures
        out == end_of(v@, a as int, b as int, last, v@.len() as int),
{
    let whole: i64 = reach_along(v, a, b, b);
    let mut out: Option<EndAt> = None;
    let mut i: usize = 0;
    while i < v.len()
        invariant
            i <= v@.len(),
            a < v@.len(),
            b < v@.len(),
            v@.len() <= 0xffff_ffff,
            whole == along(v@, a as int, b as int, b as int),
            -0x2_0000_0000 <= whole <= 0x2_0000_0000,
            out == end_of(v@, a as int, b as int, last, i as int),
        decreases v@.len() - i,
    {
        let t: i64 = reach_along(v, a, b, i);
        let ends: bool = if last { 10 * t >= 9 * whole } else { 10 * t <= whole };
        if ends {
            let p: DeckVertex = v[i];
            proof {
                lemma_end_of(v@, a as int, b as int, last, i as int);
            }
            out = match out {
                None => Some(EndAt { x: p.x as u64, y: p.y as u64, count: 1, top: p.height }),
                Some(e) => Some(
                    EndAt {
                        x: e.x + p.x as u64,
                        y: e.y + p.y as u64,
                        count: e.count + 1,
                        top: if e.top < p.height { p.height } else { e.top },
                    },
                ),
            };
        }
        i = i + 1;
    }
    out
}

fn add_up(v: &[DeckVertex]) -> (out: (u64, u64))
    requires
        v@.len() <= 0xffff_ffff,
    ensures
        out.0 == sum_x(v@, v@.len() as int),
        out.1 == sum_y(v@, v@.len() as int),
        out.0 <= v@.len() * 0xffff,
        out.1 <= v@.len() * 0xffff,
{
    let (mut x, mut y): (u64, u64) = (0, 0);
    let mut i: usize = 0;
    while i < v.len()
        invariant
            i <= v@.len(),
            v@.len() <= 0xffff_ffff,
            x == sum_x(v@, i as int),
            y == sum_y(v@, i as int),
        decreases v@.len() - i,
    {
        proof {
            lemma_sums(v@, i as int);
        }
        x = x + v[i].x as u64;
        y = y + v[i].y as u64;
        i = i + 1;
    }
    proof {
        lemma_sums(v@, v@.len() as int);
    }
    (x, y)
}

/// A deck's two ends: the vertices in the outermost tenth of its long axis at
/// either side. None for a mesh of fewer than three vertices, or of no length.
pub fn deck_ends(v: &[DeckVertex]) -> (out: Option<(EndAt, EndAt)>)
    requires
        v@.len() <= 0xffff_ffff,
    ensures
        ({
            let (a, b) = (axis_from(v@), axis_to(v@));
            let n = v@.len() as int;
            if n < 3 || along(v@, a, b, b) == 0 {
                out is None
            } else {
                &&& out is Some
                &&& end_of(v@, a, b, false, n) == Some((out->0).0)
                &&& end_of(v@, a, b, true, n) == Some((out->0).1)
            }
        }),
{
    let n: usize = v.len();
    if n < 3 {
        return None;
    }
    let (x, y): (u64, u64) = add_up(v);
    let a: usize = find_furthest(v, n as u64, x, y);
    let b: usize = find_furthest(v, 1, v[a].x as u64, v[a].y as u64);
    if reach_along(v, a, b, b) == 0 {
        return None;
    }
    proof {
        both_ends_hold_a_vertex(v@);
    }
    match (find_end(v, a, b, false), find_end(v, a, b, true)) {
        (Some(p), Some(q)) => Some((p, q)),
        _ => None,
    }
}

proof fn lemma_end_is_held(v: Seq<DeckVertex>, a: int, b: int, last: bool, i: int, n: int)
    requires
        0 <= i < n <= v.len(),
        at_end(v, a, b, last, i),
    ensures
        end_of(v, a, b, last, n) is Some,
    decreases n,
{
    if i < n - 1 {
        lemma_end_is_held(v, a, b, last, i, n - 1);
    }
}

/// Each end of a deck holds at least the vertex its axis ends at.
pub proof fn both_ends_hold_a_vertex(v: Seq<DeckVertex>)
    requires
        v.len() >= 3,
    ensures
        end_of(v, axis_from(v), axis_to(v), false, v.len() as int) is Some,
        end_of(v, axis_from(v), axis_to(v), true, v.len() as int) is Some,
{
    let n = v.len() as int;
    let (a, b) = (axis_from(v), axis_to(v));
    none_is_further(v, n, sum_x(v, n), sum_y(v, n), n);
    none_is_further(v, 1, v[a].x as int, v[a].y as int, n);
    let (dx, dy) = (v[b].x - v[a].x, v[b].y - v[a].y);
    assert(dx * dx >= 0 && dy * dy >= 0) by (nonlinear_arith);
    assert(along(v, a, b, a) == 0) by (nonlinear_arith)
        requires
            along(v, a, b, a) == (v[a].x - v[a].x) * dx + (v[a].y - v[a].y) * dy,
    ;
    assert(along(v, a, b, b) == dx * dx + dy * dy);
    lemma_end_is_held(v, a, b, false, a, n);
    lemma_end_is_held(v, a, b, true, b, n);
}

// ---------------------------------------------------------------------------
// Decks along each other.
// ---------------------------------------------------------------------------

/// The way a deck runs from its first end to its second, in millimetres.
#[derive(Clone, Copy, Debug, PartialEq, Eq, Structural)]
pub struct Heading {
    pub east: i64,
    pub north: i64,
}

/// The furthest a deck may run either way.
pub const HEADING_MM: i64 = 0x200_0000;

/// The least cosine, in hundredths, between two decks running along each
/// other.
pub const ALONG_HUNDREDTHS: i128 = 87;

pub open spec fn heading_fits(h: Heading) -> bool {
    -HEADING_MM <= h.east <= HEADING_MM && -HEADING_MM <= h.north <= HEADING_MM
}

pub open spec fn dot(u: Heading, v: Heading) -> int {
    u.east * v.east + u.north * v.north
}

/// Whether two decks run along each other, either way round: the cosine of the
/// angle between them is large enough.
pub open spec fn run_along(u: Heading, v: Heading) -> bool {
    &&& dot(u, u) > 0
    &&& dot(v, v) > 0
    &&& 10_000 * (dot(u, v) * dot(u, v)) >= ALONG_HUNDREDTHS * ALONG_HUNDREDTHS * (dot(u, u) * dot(v, v))
}

proof fn lemma_product_bound(a: int, b: int, m: int)
    requires
        -m <= a <= m,
        -m <= b <= m,
    ensures
        -(m * m) <= a * b <= m * m,
{
    assert(-(m * m) <= a * b <= m * m) by (nonlinear_arith)
        requires
            -m <= a <= m,
            -m <= b <= m,
    ;
}

fn dot_of(u: Heading, v: Heading) -> (out: i128)
    requires
        heading_fits(u),
        heading_fits(v),
    ensures
        out == dot(u, v),
        -0x8_0000_0000_0000 <= out <= 0x8_0000_0000_0000,
{
    proof {
        lemma_product_bound(u.east as int, v.east as int, HEADING_MM as int);
        lemma_product_bound(u.north as int, v.north as int, HEADING_MM as int);
    }
    u.east as i128 * v.east as i128 + u.north as i128 * v.north as i128
}

/// Whether two decks run along each other.
pub fn runs_along(u: Heading, v: Heading) -> (yes: bool)
    requires
        heading_fits(u),
        heading_fits(v),
    ensures
        yes == run_along(u, v),
{
    let d: i128 = dot_of(u, v);
    let lu: i128 = dot_of(u, u);
    let lv: i128 = dot_of(v, v);
    if lu <= 0 || lv <= 0 {
        return false;
    }
    proof {
        lemma_product_bound(d as int, d as int, 0x8_0000_0000_0000);
        lemma_product_bound(lu as int, lv as int, 0x8_0000_0000_0000);
    }
    10_000 * (d * d) >= ALONG_HUNDREDTHS * ALONG_HUNDREDTHS * (lu * lv)
}

/// Running along each other is mutual, and does not depend on which end of a
/// deck comes first.
pub proof fn running_along_is_mutual(u: Heading, v: Heading, back: Heading)
    requires
        back.east == -v.east,
        back.north == -v.north,
    ensures
        run_along(u, v) == run_along(v, u),
        run_along(u, v) == run_along(u, back),
{
    assert(dot(u, v) == dot(v, u)) by (nonlinear_arith)
        requires
            dot(u, v) == u.east * v.east + u.north * v.north,
            dot(v, u) == v.east * u.east + v.north * u.north,
    ;
    assert(dot(u, u) * dot(v, v) == dot(v, v) * dot(u, u)) by (nonlinear_arith);
    assert(u.east * back.east == -(u.east * v.east)) by (nonlinear_arith)
        requires
            back.east == -v.east,
    ;
    assert(u.north * back.north == -(u.north * v.north)) by (nonlinear_arith)
        requires
            back.north == -v.north,
    ;
    assert(back.east * back.east == v.east * v.east) by (nonlinear_arith)
        requires
            back.east == -v.east,
    ;
    assert(back.north * back.north == v.north * v.north) by (nonlinear_arith)
        requires
            back.north == -v.north,
    ;
    assert(dot(u, back) * dot(u, back) == dot(u, v) * dot(u, v)) by (nonlinear_arith)
        requires
            dot(u, back) == -dot(u, v),
    ;
}

/// What every vertex puts into an end: those in the outermost tenth of the axis at
/// that end their place and one, the others nothing.
pub open spec fn end_parts(v: Seq<DeckVertex>, a: int, b: int, last: bool, xs: Seq<int>, ys: Seq<int>, ones: Seq<int>) -> bool {
    &&& xs.len() == v.len() && ys.len() == v.len() && ones.len() == v.len()
    &&& forall|i: int| 0 <= i < v.len() ==> #[trigger] xs[i] == if outermost(v, a, b, last, i) {
        v[i].x as int
    } else {
        0
    }
    &&& forall|i: int| 0 <= i < v.len() ==> #[trigger] ys[i] == if outermost(v, a, b, last, i) {
        v[i].y as int
    } else {
        0
    }
    &&& forall|i: int| 0 <= i < v.len() ==> #[trigger] ones[i] == if outermost(v, a, b, last, i) {
        1int
    } else {
        0
    }
}

/// Whether a vertex lies in the outermost tenth of an axis at its first end, or at
/// its last: its share of the way along it is a tenth at most, or nine tenths at
/// least.
pub open spec fn outermost(v: Seq<DeckVertex>, a: int, b: int, last: bool, i: int) -> bool {
    let e = v[b].x - v[a].x;
    let n = v[b].y - v[a].y;
    let part = (v[i].x - v[a].x) * e + (v[i].y - v[a].y) * n;
    let whole = e * e + n * n;
    if last {
        part * 10 >= whole * 9
    } else {
        part * 10 <= whole
    }
}

/// An end is what its vertices add up to, how many they are, and the highest of
/// them; there is none where it has no vertex.
pub proof fn an_end_is_what_its_vertices_add_up_to(
    v: Seq<DeckVertex>,
    a: int,
    b: int,
    last: bool,
    n: int,
    xs: Seq<int>,
    ys: Seq<int>,
    ones: Seq<int>,
)
    requires
        0 <= n <= v.len() <= 0xffff_ffff,
        end_parts(v, a, b, last, xs, ys, ones),
    ensures
        match end_of(v, a, b, last, n) {
            Some(e) => {
                &&& e.x == crate::arith::total(xs.take(n))
                &&& e.y == crate::arith::total(ys.take(n))
                &&& e.count == crate::arith::total(ones.take(n))
                &&& e.count > 0
                &&& forall|i: int| 0 <= i < n && outermost(v, a, b, last, i) ==> (#[trigger] v[i]).height <= e.top
                &&& exists|i: int| 0 <= i < n && outermost(v, a, b, last, i) && (#[trigger] v[i]).height == e.top
                &&& e.x <= n * 0xffff && e.y <= n * 0xffff && e.count <= n
            },
            None => {
                &&& crate::arith::total(ones.take(n)) == 0
                &&& crate::arith::total(xs.take(n)) == 0
                &&& crate::arith::total(ys.take(n)) == 0
                &&& forall|i: int| 0 <= i < n ==> !#[trigger] outermost(v, a, b, last, i)
            },
        },
    decreases n,
{
    if n > 0 {
        an_end_is_what_its_vertices_add_up_to(v, a, b, last, n - 1, xs, ys, ones);
        assert(xs.take(n).drop_last() =~= xs.take(n - 1));
        assert(ys.take(n).drop_last() =~= ys.take(n - 1));
        assert(ones.take(n).drop_last() =~= ones.take(n - 1));
        assert(xs.take(n).last() == xs[n - 1]);
        assert(ys.take(n).last() == ys[n - 1]);
        assert(ones.take(n).last() == ones[n - 1]);
        assert(outermost(v, a, b, last, n - 1) == at_end(v, a, b, last, n - 1));
        let was = end_of(v, a, b, last, n - 1);
        let now = end_of(v, a, b, last, n);
        if outermost(v, a, b, last, n - 1) {
            assert(n * 0xffff <= 0xffff_ffff * 0xffff);
            if was is Some && was->0.top >= v[n - 1].height {
                let i = choose|i: int|
                    0 <= i < n - 1 && outermost(v, a, b, last, i) && (#[trigger] v[i]).height == was->0.top;
                assert(v[i].height == now->0.top);
            } else {
                assert(v[n - 1].height == now->0.top);
            }
        } else if was is Some {
            let i = choose|i: int| 0 <= i < n - 1 && outermost(v, a, b, last, i) && (#[trigger] v[i]).height == was->0.top;
            assert(v[i].height == now->0.top);
        }
    }
}

/// The long axis of a deck runs from the vertex furthest from the middle of them
/// all to the one furthest from that.
pub proof fn the_axis_runs_between_the_furthest_vertices(v: Seq<DeckVertex>, i: int)
    requires
        0 <= i < v.len(),
    ensures
        ({
            let n = v.len() as int;
            let (a, b) = (axis_from(v), axis_to(v));
            let (mx, my) = (sum_x(v, n), sum_y(v, n));
            &&& 0 <= a < n
            &&& 0 <= b < n
            &&& (n * v[i].x - mx) * (n * v[i].x - mx) + (n * v[i].y - my) * (n * v[i].y - my) <= (n * v[a].x - mx) * (n
                * v[a].x - mx) + (n * v[a].y - my) * (n * v[a].y - my)
            &&& (v[i].x - v[a].x) * (v[i].x - v[a].x) + (v[i].y - v[a].y) * (v[i].y - v[a].y) <= (v[b].x - v[a].x) * (
            v[b].x - v[a].x) + (v[b].y - v[a].y) * (v[b].y - v[a].y)
        }),
{
    let n = v.len() as int;
    none_is_further(v, n, sum_x(v, n), sum_y(v, n), n);
    let a = axis_from(v);
    none_is_further(v, 1, v[a].x as int, v[a].y as int, n);
    assert(spread2(v, i, n, sum_x(v, n), sum_y(v, n)) <= spread2(v, a, n, sum_x(v, n), sum_y(v, n)));
    assert(spread2(v, i, 1, v[a].x as int, v[a].y as int) <= spread2(v, axis_to(v), 1, v[a].x as int, v[a].y as int));
}

/// Two decks at right angles do not run along each other; two that run the same
/// way do.
pub proof fn only_decks_that_run_the_same_way_run_along(u: Heading, v: Heading)
    ensures
        u.east * v.east + u.north * v.north == 0 ==> !run_along(u, v),
        (u.east != 0 || u.north != 0) ==> run_along(u, u),
{
    if dot(u, v) == 0 && dot(u, u) > 0 && dot(v, v) > 0 {
        assert(dot(u, u) * dot(v, v) > 0) by (nonlinear_arith)
            requires
                dot(u, u) > 0,
                dot(v, v) > 0,
        ;
    }
    if u.east != 0 || u.north != 0 {
        let (e, n) = (u.east as int, u.north as int);
        assert(e * e + n * n > 0) by (nonlinear_arith)
            requires
                e != 0 || n != 0,
        ;
        let d = dot(u, u);
        let x = d * d;
        assert(x > 0) by (nonlinear_arith)
            requires
                d > 0,
                x == d * d,
        ;
        assert(ALONG_HUNDREDTHS * ALONG_HUNDREDTHS * x == 7569 * x) by (nonlinear_arith);
    }
}

} // verus!
