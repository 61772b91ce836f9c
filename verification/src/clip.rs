//! Clipping a line to the tile proper.
//!
//! A part of the way along a line from `a` to `b` is a fraction `n / d`. What
//! a tile keeps of a line is an interval of such parts, narrowed by each edge
//! in turn and held exactly, so two tiles that share a border end a line that
//! crosses it at the same place.
use vstd::prelude::*;

use crate::arith::{lemma_nearest_bounds, lemma_nearest_is_of_the_value, nearest, nearest_of};
use crate::project::{Place, TileEdges};

verus! {

/// How far from the origin a coordinate may lie, in billionths of a degree.
pub const PLACE_LIMIT: i64 = 0x1000_0000_0000_0000;

pub open spec fn coord_fits(c: i64) -> bool {
    -PLACE_LIMIT <= c <= PLACE_LIMIT
}

pub open spec fn place_fits(p: Place) -> bool {
    coord_fits(p.lon) && coord_fits(p.lat)
}

pub open spec fn edges_fit(t: TileEdges) -> bool {
    &&& coord_fits(t.west) && coord_fits(t.south) && coord_fits(t.east) && coord_fits(t.north)
    &&& t.west <= t.east
    &&& t.south <= t.north
}

/// Whether `n / d` is a part of the way.
pub open spec fn is_part(n: int, d: int) -> bool {
    0 <= n <= d && 0 < d
}

/// Whether a line lies inside the tile at a part of its way.
pub open spec fn inside(a: Place, b: Place, t: TileEdges, n: int, d: int) -> bool {
    &&& (t.west - a.lon) * d <= (b.lon - a.lon) * n <= (t.east - a.lon) * d
    &&& (t.south - a.lat) * d <= (b.lat - a.lat) * n <= (t.north - a.lat) * d
}

/// Whether `n / d` is the first part of a line inside the tile.
pub open spec fn is_first(a: Place, b: Place, t: TileEdges, n: int, d: int) -> bool {
    &&& is_part(n, d)
    &&& inside(a, b, t, n, d)
    &&& forall|m: int, c: int|
        is_part(m, c) && #[trigger] inside(a, b, t, m, c) ==> n * c <= m * d
}

/// Whether `n / d` is the last part of a line inside the tile.
pub open spec fn is_last(a: Place, b: Place, t: TileEdges, n: int, d: int) -> bool {
    &&& is_part(n, d)
    &&& inside(a, b, t, n, d)
    &&& forall|m: int, c: int|
        is_part(m, c) && #[trigger] inside(a, b, t, m, c) ==> m * d <= n * c
}

/// The place a part of the way along a line, to the nearest unit.
pub open spec fn place_at(a: Place, b: Place, n: int, d: int) -> Place {
    Place {
        lon: (a.lon + nearest((b.lon - a.lon) * n, d)) as i64,
        lat: (a.lat + nearest((b.lat - a.lat) * n, d)) as i64,
    }
}

/// What a tile keeps of a line: where it enters and where it leaves, or nothing
/// where no part of it is inside.
pub open spec fn kept(a: Place, b: Place, t: TileEdges) -> Option<(Place, Place)> {
    if exists|n: int, d: int| is_part(n, d) && #[trigger] inside(a, b, t, n, d) {
        let (n0, d0) = choose|n: int, d: int| #[trigger] is_first(a, b, t, n, d);
        let (n1, d1) = choose|n: int, d: int| #[trigger] is_last(a, b, t, n, d);
        Some((place_at(a, b, n0, d0), place_at(a, b, n1, d1)))
    } else {
        None
    }
}

/// The parts from `n0 / d0` up to `n1 / d1`.
struct Span {
    n0: i128,
    d0: i128,
    n1: i128,
    d1: i128,
}

impl Span {
    spec fn holds(self, n: int, d: int) -> bool {
        self.n0 * d <= n * self.d0 && n * self.d1 <= self.n1 * d
    }

    spec fn fits(self) -> bool {
        &&& -0x2000_0000_0000_0000 <= self.n0 <= 0x2000_0000_0000_0000
        &&& -0x2000_0000_0000_0000 <= self.n1 <= 0x2000_0000_0000_0000
        &&& 0 < self.d0 <= 0x2000_0000_0000_0000
        &&& 0 < self.d1 <= 0x2000_0000_0000_0000
    }
}

/// Fractions are ordered.
proof fn lemma_between(n: int, d: int, m: int, c: int, k: int, e: int)
    requires
        0 < d,
        0 < c,
        0 < e,
        n * c <= m * d,
        m * e <= k * c,
    ensures
        n * e <= k * d,
{
    assert((n * e) * c <= (k * d) * c) by (nonlinear_arith)
        requires
            n * c <= m * d,
            m * e <= k * c,
            0 < d,
            0 < e,
    {
        assert((n * c) * e <= (m * d) * e) by (nonlinear_arith)
            requires
                n * c <= m * d,
                0 < e,
        ;
        assert((m * e) * d <= (k * c) * d) by (nonlinear_arith)
            requires
                m * e <= k * c,
                0 < d,
        ;
        assert((m * d) * e == (m * e) * d) by (nonlinear_arith);
        assert((n * c) * e == (n * e) * c) by (nonlinear_arith);
        assert((k * c) * d == (k * d) * c) by (nonlinear_arith);
    }
    assert(n * e <= k * d) by (nonlinear_arith)
        requires
            (n * e) * c <= (k * d) * c,
            0 < c,
    ;
}

proof fn lemma_product(x: int, y: int)
    requires
        -0x2000_0000_0000_0000 <= x <= 0x2000_0000_0000_0000,
        -0x2000_0000_0000_0000 <= y <= 0x2000_0000_0000_0000,
    ensures
        -0x400_0000_0000_0000_0000_0000_0000_0000 <= x * y <= 0x400_0000_0000_0000_0000_0000_0000_0000,
{
    assert(-0x400_0000_0000_0000_0000_0000_0000_0000 <= x * y
        <= 0x400_0000_0000_0000_0000_0000_0000_0000) by (nonlinear_arith)
        requires
            -0x2000_0000_0000_0000 <= x <= 0x2000_0000_0000_0000,
            -0x2000_0000_0000_0000 <= y <= 0x2000_0000_0000_0000,
    ;
}

/// Narrows a span to the parts `n / d` with `p * n <= q * d`, or finds that
/// there are none because the line runs along the edge outside it.
fn narrow(s: Span, p: i128, q: i128) -> (out: Option<Span>)
    requires
        s.fits(),
        -0x2000_0000_0000_0000 <= p <= 0x2000_0000_0000_0000,
        -0x2000_0000_0000_0000 <= q <= 0x2000_0000_0000_0000,
    ensures
        out is None <==> p == 0 && q < 0,
        out matches Some(r) ==> {
            &&& r.fits()
            &&& forall|n: int, d: int|
                0 < d ==> (#[trigger] r.holds(n, d) <==> s.holds(n, d) && p * n <= q * d)
        },
{
    if p == 0 {
        if q < 0 {
            None
        } else {
            proof {
                assert forall|n: int, d: int| 0 < d implies (#[trigger] s.holds(n, d) <==> s.holds(
                    n,
                    d,
                ) && p * n <= q * d) by {
                    lemma_along_the_edge(n, q as int, d);
                }
            }
            Some(s)
        }
    } else if p > 0 {
        proof {
            lemma_product(q as int, s.d1 as int);
            lemma_product(s.n1 as int, p as int);
        }
        if q * s.d1 < s.n1 * p {
            let r: Span = Span { n0: s.n0, d0: s.d0, n1: q, d1: p };
            proof {
                assert forall|n: int, d: int| 0 < d implies (#[trigger] r.holds(n, d) <==> s.holds(
                    n,
                    d,
                ) && p * n <= q * d) by {
                    assert(p * n == n * p) by (nonlinear_arith);
                    if p * n <= q * d {
                        lemma_between(n, d, q as int, p as int, s.n1 as int, s.d1 as int);
                    }
                }
            }
            Some(r)
        } else {
            proof {
                assert forall|n: int, d: int| 0 < d implies (#[trigger] s.holds(n, d) <==> s.holds(
                    n,
                    d,
                ) && p * n <= q * d) by {
                    assert(p * n == n * p) by (nonlinear_arith);
                    if s.holds(n, d) {
                        lemma_between(n, d, s.n1 as int, s.d1 as int, q as int, p as int);
                    }
                }
            }
            Some(s)
        }
    } else {
        let (m, c): (i128, i128) = (-q, -p);
        proof {
            lemma_product(m as int, s.d0 as int);
            lemma_product(s.n0 as int, c as int);
        }
        if s.n0 * c < m * s.d0 {
            let r: Span = Span { n0: m, d0: c, n1: s.n1, d1: s.d1 };
            proof {
                assert forall|n: int, d: int| 0 < d implies (#[trigger] r.holds(n, d) <==> s.holds(
                    n,
                    d,
                ) && p * n <= q * d) by {
                    lemma_turned(p as int, q as int, n, d);
                    if m * d <= n * c {
                        lemma_between(s.n0 as int, s.d0 as int, m as int, c as int, n, d);
                    }
                }
            }
            Some(r)
        } else {
            proof {
                assert forall|n: int, d: int| 0 < d implies (#[trigger] s.holds(n, d) <==> s.holds(
                    n,
                    d,
                ) && p * n <= q * d) by {
                    lemma_turned(p as int, q as int, n, d);
                    if s.holds(n, d) {
                        lemma_between(m as int, c as int, s.n0 as int, s.d0 as int, n, d);
                    }
                }
            }
            Some(s)
        }
    }
}

proof fn lemma_along_the_edge(n: int, q: int, d: int)
    requires
        0 < d,
    ensures
        0 * n <= q * d <==> q >= 0,
{
    assert(0 * n == 0) by (nonlinear_arith);
    assert(q * d >= 0 <==> q >= 0) by (nonlinear_arith)
        requires
            0 < d,
    ;
}

proof fn lemma_turned(p: int, q: int, n: int, d: int)
    ensures
        p * n <= q * d <==> (-q) * d <= n * (-p),
{
    assert((-q) * d == -(q * d)) by (nonlinear_arith);
    assert(n * (-p) == -(p * n)) by (nonlinear_arith);
}

/// An edge's two ways of saying that a line is on its inner side.
proof fn lemma_edge(from: int, to: int, low: int, n: int, d: int)
    ensures
        (low - from) * d <= (to - from) * n <==> (from - to) * n <= (from - low) * d,
{
    assert((low - from) * d == -((from - low) * d)) by (nonlinear_arith);
    assert((to - from) * n == -((from - to) * n)) by (nonlinear_arith);
}

/// What a tile keeps of a line: the places where it enters and leaves, or
/// nothing where no part of it is inside.
pub fn clip_to_bounds(a: Place, b: Place, t: &TileEdges) -> (out: Option<(Place, Place)>)
    requires
        place_fits(a),
        place_fits(b),
        edges_fit(*t),
    ensures
        out == kept(a, b, *t),
        out is None <==> forall|n: int, d: int| is_part(n, d) ==> !#[trigger] inside(a, b, *t, n, d),
        out matches Some(ends) ==> exists|n: int, d: int| #[trigger]
            is_first(a, b, *t, n, d) && ends.0 == place_at(a, b, n, d),
        out matches Some(ends) ==> exists|n: int, d: int| #[trigger]
            is_last(a, b, *t, n, d) && ends.1 == place_at(a, b, n, d),
{
    let (dx, dy): (i128, i128) = (b.lon as i128 - a.lon as i128, b.lat as i128 - a.lat as i128);
    let west: i128 = a.lon as i128 - t.west as i128;
    let east: i128 = t.east as i128 - a.lon as i128;
    let south: i128 = a.lat as i128 - t.south as i128;
    let north: i128 = t.north as i128 - a.lat as i128;
    let s0: Span = Span { n0: 0, d0: 1, n1: 1, d1: 1 };
    let s1: Span = match narrow(s0, -dx, west) {
        Some(s) => s,
        None => {
            proof {
                lemma_runs_outside(a, b, *t);
            }
            return None;
        },
    };
    let s2: Span = match narrow(s1, dx, east) {
        Some(s) => s,
        None => {
            proof {
                lemma_runs_outside(a, b, *t);
            }
            return None;
        },
    };
    let s3: Span = match narrow(s2, -dy, south) {
        Some(s) => s,
        None => {
            proof {
                lemma_runs_outside(a, b, *t);
            }
            return None;
        },
    };
    let s: Span = match narrow(s3, dy, north) {
        Some(s) => s,
        None => {
            proof {
                lemma_runs_outside(a, b, *t);
            }
            return None;
        },
    };
    proof {
        assert forall|n: int, d: int| 0 < d implies (#[trigger] s.holds(n, d) <==> is_part(n, d)
            && inside(a, b, *t, n, d)) by {
            assert(s3.holds(n, d) <==> s2.holds(n, d) && (-dy) * n <= south * d);
            assert(s2.holds(n, d) <==> s1.holds(n, d) && dx * n <= east * d);
            assert(s1.holds(n, d) <==> s0.holds(n, d) && (-dx) * n <= west * d);
            assert(s0.holds(n, d) <==> 0 <= n <= d) by {
                assert(0 * d == 0) by (nonlinear_arith);
            }
            lemma_edge(a.lon as int, b.lon as int, t.west as int, n, d);
            lemma_edge(a.lat as int, b.lat as int, t.south as int, n, d);
        }
        lemma_product(s.n0 as int, s.d1 as int);
        lemma_product(s.n1 as int, s.d0 as int);
    }
    if s.n0 * s.d1 > s.n1 * s.d0 {
        proof {
            assert forall|n: int, d: int| is_part(n, d) implies !#[trigger] inside(
                a,
                b,
                *t,
                n,
                d,
            ) by {
                if s.holds(n, d) {
                    lemma_between(s.n0 as int, s.d0 as int, n, d, s.n1 as int, s.d1 as int);
                }
            }
        }
        return None;
    }
    proof {
        assert(s.holds(s.n0 as int, s.d0 as int));
        assert(s.holds(s.n1 as int, s.d1 as int));
        assert forall|m: int, c: int| is_part(m, c) && #[trigger] inside(a, b, *t, m, c) implies s.n0
            * c <= m * s.d0 && m * s.d1 <= s.n1 * c by {
            assert(s.holds(m, c));
        }
        assert(is_first(a, b, *t, s.n0 as int, s.d0 as int));
        assert(is_last(a, b, *t, s.n1 as int, s.d1 as int));
        let (n0, d0) = choose|n: int, d: int| #[trigger] is_first(a, b, *t, n, d);
        let (n1, d1) = choose|n: int, d: int| #[trigger] is_last(a, b, *t, n, d);
        a_clip_has_one_start_and_one_end(a, b, *t, s.n0 as int, s.d0 as int, n0, d0);
        a_clip_has_one_start_and_one_end(a, b, *t, s.n1 as int, s.d1 as int, n1, d1);
    }
    Some((place_of(a, b, t, s.n0, s.d0), place_of(a, b, t, s.n1, s.d1)))
}

/// A line that runs along an edge outside it has no part inside.
proof fn lemma_runs_outside(a: Place, b: Place, t: TileEdges)
    requires
        (a.lon == b.lon && (a.lon < t.west || a.lon > t.east)) || (a.lat == b.lat && (a.lat
            < t.south || a.lat > t.north)),
    ensures
        forall|n: int, d: int| is_part(n, d) ==> !#[trigger] inside(a, b, t, n, d),
{
    assert forall|n: int, d: int| is_part(n, d) implies !#[trigger] inside(a, b, t, n, d) by {
        lemma_along_the_edge(n, t.west - a.lon, d);
        lemma_along_the_edge(n, t.east - a.lon, d);
        lemma_along_the_edge(n, t.south - a.lat, d);
        lemma_along_the_edge(n, t.north - a.lat, d);
        assert(t.west > a.lon ==> (t.west - a.lon) * d > 0) by (nonlinear_arith)
            requires
                0 < d,
        ;
        assert(t.south > a.lat ==> (t.south - a.lat) * d > 0) by (nonlinear_arith)
            requires
                0 < d,
        ;
    }
}

fn place_of(a: Place, b: Place, t: &TileEdges, n: i128, d: i128) -> (out: Place)
    requires
        place_fits(a),
        place_fits(b),
        edges_fit(*t),
        is_part(n as int, d as int),
        d <= 0x2000_0000_0000_0000,
        inside(a, b, *t, n as int, d as int),
    ensures
        out == place_at(a, b, n as int, d as int),
{
    let (dx, dy): (i128, i128) = (b.lon as i128 - a.lon as i128, b.lat as i128 - a.lat as i128);
    proof {
        lemma_product(dx as int, n as int);
        lemma_product(dy as int, n as int);
        a_clipped_line_stays_in_the_tile(a, b, *t, n as int, d as int);
    }
    let lon: i128 = a.lon as i128 + nearest_of(dx * n, d as u64);
    let lat: i128 = a.lat as i128 + nearest_of(dy * n, d as u64);
    Place { lon: lon as i64, lat: lat as i64 }
}

/// The runs of the first `n` segments of a line inside the tile, in order. A
/// segment that enters where the run before it ended continues that run.
pub open spec fn runs_inside(line: Seq<Place>, t: TileEdges, n: int) -> Seq<Seq<Place>>
    decreases n,
{
    if n <= 0 {
        Seq::empty()
    } else {
        let rest = runs_inside(line, t, n - 1);
        match kept(line[n - 1], line[n], t) {
            None => rest,
            Some(ends) => if rest.len() > 0 && rest.last().last() == ends.0 {
                rest.update(rest.len() - 1, rest.last().push(ends.1))
            } else {
                rest.push(seq![ends.0, ends.1])
            },
        }
    }
}

pub open spec fn same_runs(v: Seq<Vec<Place>>, s: Seq<Seq<Place>>) -> bool {
    v.len() == s.len() && forall|i: int| 0 <= i < v.len() ==> (#[trigger] v[i])@ == s[i]
}

/// The pieces of a line inside the tile proper, in order. An opaque solid drawn
/// along them stops at the tile's border, where the neighbour's begins.
pub fn proper_pieces(line: &[Place], t: &TileEdges) -> (out: Vec<Vec<Place>>)
    requires
        forall|i: int| 0 <= i < line@.len() ==> place_fits(#[trigger] line@[i]),
        edges_fit(*t),
    ensures
        same_runs(out@, runs_inside(line@, *t, line@.len() - 1)),
{
    let mut out: Vec<Vec<Place>> = Vec::new();
    let mut i: usize = 1;
    while i < line.len()
        invariant
            1 <= i,
            i <= line@.len() || i == 1,
            forall|k: int| 0 <= k < line@.len() ==> place_fits(#[trigger] line@[k]),
            edges_fit(*t),
            same_runs(out@, runs_inside(line@, *t, i - 1)),
            forall|k: int| 0 <= k < out@.len() ==> (#[trigger] out@[k])@.len() >= 2,
        decreases line@.len() - i,
    {
        assert(place_fits(line@[i - 1]) && place_fits(line@[i as int]));
        let ghost rest = runs_inside(line@, *t, i - 1);
        if let Some((p, q)) = clip_to_bounds(line[i - 1], line[i], t) {
            let mut joins: bool = false;
            let n: usize = out.len();
            if n > 0 {
                assert(out@[n - 1]@ == rest[n - 1] && out@[n - 1]@.len() >= 2);
                let m: usize = out[n - 1].len();
                joins = out[n - 1][m - 1] == p;
            }
            if joins {
                let mut last: Vec<Place> = out.pop().unwrap();
                last.push(q);
                out.push(last);
                assert(same_runs(out@, rest.update(rest.len() - 1, rest.last().push(q))));
            } else {
                let mut fresh: Vec<Place> = Vec::new();
                fresh.push(p);
                fresh.push(q);
                assert(fresh@ =~= seq![p, q]);
                out.push(fresh);
                assert(same_runs(out@, rest.push(seq![p, q])));
            }
        }
        i = i + 1;
    }
    out
}

proof fn lemma_runs_inside(line: Seq<Place>, t: TileEdges, n: int)
    requires
        0 <= n < line.len() || n == 0,
    ensures
        forall|k: int| 0 <= k < runs_inside(line, t, n).len() ==> (#[trigger] runs_inside(line, t, n)[k]).len() >= 2,
        forall|k: int|
            0 <= k < runs_inside(line, t, n).len() - 1 ==> (#[trigger] runs_inside(line, t, n)[k]).last()
                != runs_inside(line, t, n)[k + 1][0],
    decreases n,
{
    if n > 0 {
        lemma_runs_inside(line, t, n - 1);
        let rest = runs_inside(line, t, n - 1);
        let now = runs_inside(line, t, n);
        assert forall|k: int| 0 <= k < now.len() - 1 implies (#[trigger] now[k]).last() != now[k + 1][0] by {
            if k < rest.len() - 1 {
                assert(rest[k].last() != rest[k + 1][0]);
                assert(rest[k + 1].len() >= 2);
                assert(now[k + 1][0] == rest[k + 1][0]);
            }
        }
    }
}

/// The pieces are maximal: none begins where the one before it ends.
pub proof fn pieces_are_apart(line: Seq<Place>, t: TileEdges, k: int)
    requires
        0 <= k < runs_inside(line, t, line.len() - 1).len() - 1,
    ensures
        runs_inside(line, t, line.len() - 1)[k].last() != runs_inside(line, t, line.len() - 1)[k + 1][0],
{
    lemma_runs_inside(line, t, line.len() - 1);
}

/// Rounded to the nearest unit, a part of a line inside the tile stays in it.
pub proof fn a_clipped_line_stays_in_the_tile(a: Place, b: Place, t: TileEdges, n: int, d: int)
    requires
        is_part(n, d),
        inside(a, b, t, n, d),
    ensures
        t.west <= a.lon + nearest((b.lon - a.lon) * n, d) <= t.east,
        t.south <= a.lat + nearest((b.lat - a.lat) * n, d) <= t.north,
        t.west <= place_at(a, b, n, d).lon <= t.east,
        t.south <= place_at(a, b, n, d).lat <= t.north,
{
    lemma_nearest_bounds((b.lon - a.lon) * n, d, t.west - a.lon, t.east - a.lon);
    lemma_nearest_bounds((b.lat - a.lat) * n, d, t.south - a.lat, t.north - a.lat);
}

/// A line enters a tile at one place and leaves it at one place.
pub proof fn a_clip_has_one_start_and_one_end(
    a: Place,
    b: Place,
    t: TileEdges,
    n: int,
    d: int,
    m: int,
    c: int,
)
    ensures
        is_first(a, b, t, n, d) && is_first(a, b, t, m, c) ==> place_at(a, b, n, d) == place_at(
            a,
            b,
            m,
            c,
        ),
        is_last(a, b, t, n, d) && is_last(a, b, t, m, c) ==> place_at(a, b, n, d) == place_at(
            a,
            b,
            m,
            c,
        ),
{
    if 0 < d && 0 < c && n * c == m * d {
        let (dx, dy) = (b.lon - a.lon, b.lat - a.lat);
        assert((dx * n) * c == (dx * m) * d && (dy * n) * c == (dy * m) * d) by (nonlinear_arith)
            requires
                n * c == m * d,
        ;
        lemma_nearest_is_of_the_value(dx * n, d, dx * m, c);
        lemma_nearest_is_of_the_value(dy * n, d, dy * m, c);
    }
}

proof fn lemma_reaches(span: int, to: int, n: int, d: int, m: int, c: int)
    requires
        0 < d,
        0 < c,
        span * n == to * d,
    ensures
        span > 0 && span * m <= to * c ==> m * d <= n * c,
        span > 0 && to * c <= span * m ==> n * c <= m * d,
        span < 0 && span * m <= to * c ==> n * c <= m * d,
        span < 0 && to * c <= span * m ==> m * d <= n * c,
{
    assert((span * m) * d == span * (m * d)) by (nonlinear_arith);
    assert((to * c) * d == span * (n * c)) by (nonlinear_arith)
        requires
            span * n == to * d,
    ;
    assert(span * m <= to * c ==> span * (m * d) <= span * (n * c)) by (nonlinear_arith)
        requires
            0 < d,
            (span * m) * d == span * (m * d),
            (to * c) * d == span * (n * c),
    ;
    assert(to * c <= span * m ==> span * (n * c) <= span * (m * d)) by (nonlinear_arith)
        requires
            0 < d,
            (span * m) * d == span * (m * d),
            (to * c) * d == span * (n * c),
    ;
    let (u, v) = (m * d, n * c);
    assert(span > 0 && span * u <= span * v ==> u <= v) by (nonlinear_arith);
    assert(span > 0 && span * v <= span * u ==> v <= u) by (nonlinear_arith);
    assert(span < 0 && span * u <= span * v ==> v <= u) by (nonlinear_arith);
    assert(span < 0 && span * v <= span * u ==> u <= v) by (nonlinear_arith);
}

proof fn lemma_lands(from: int, span: int, border: int, n: int, d: int)
    requires
        0 < d,
        span * n == (border - from) * d,
    ensures
        from + nearest(span * n, d) == border,
{
    lemma_nearest_bounds(span * n, d, border - from, border - from);
}

/// Where a line crosses the border of two tiles side by side, the one's clip
/// ends and the other's begins, on the border exactly.
pub proof fn neighbours_clip_a_line_at_the_same_place(
    a: Place,
    b: Place,
    left: TileEdges,
    right: TileEdges,
    n: int,
    d: int,
)
    requires
        edges_fit(left),
        edges_fit(right),
        left.east == right.west,
        left.south == right.south,
        left.north == right.north,
        is_part(n, d),
        inside(a, b, left, n, d),
        a.lon != b.lon,
        (b.lon - a.lon) * n == (left.east - a.lon) * d,
    ensures
        a.lon < b.lon ==> is_last(a, b, left, n, d) && is_first(a, b, right, n, d),
        a.lon > b.lon ==> is_last(a, b, right, n, d) && is_first(a, b, left, n, d),
        place_at(a, b, n, d).lon == left.east,
{
    lemma_lands(a.lon as int, b.lon - a.lon, left.east as int, n, d);
    assert((right.west - a.lon) * d <= (right.east - a.lon) * d) by (nonlinear_arith)
        requires
            right.west <= right.east,
            0 < d,
    ;
    assert forall|m: int, c: int| is_part(m, c) && #[trigger] inside(a, b, left, m, c) implies (
    a.lon < b.lon ==> m * d <= n * c) && (a.lon > b.lon ==> n * c <= m * d) by {
        lemma_reaches(b.lon - a.lon, left.east - a.lon, n, d, m, c);
    }
    assert forall|m: int, c: int| is_part(m, c) && #[trigger] inside(a, b, right, m, c) implies (
    a.lon < b.lon ==> n * c <= m * d) && (a.lon > b.lon ==> m * d <= n * c) by {
        lemma_reaches(b.lon - a.lon, left.east - a.lon, n, d, m, c);
    }
}

/// Where a line crosses the border of two tiles one above the other, the one's
/// clip ends and the other's begins, on the border exactly.
pub proof fn stacked_tiles_clip_a_line_at_the_same_place(
    a: Place,
    b: Place,
    lower: TileEdges,
    upper: TileEdges,
    n: int,
    d: int,
)
    requires
        edges_fit(lower),
        edges_fit(upper),
        lower.north == upper.south,
        lower.west == upper.west,
        lower.east == upper.east,
        is_part(n, d),
        inside(a, b, lower, n, d),
        a.lat != b.lat,
        (b.lat - a.lat) * n == (lower.north - a.lat) * d,
    ensures
        a.lat < b.lat ==> is_last(a, b, lower, n, d) && is_first(a, b, upper, n, d),
        a.lat > b.lat ==> is_last(a, b, upper, n, d) && is_first(a, b, lower, n, d),
        place_at(a, b, n, d).lat == lower.north,
{
    lemma_lands(a.lat as int, b.lat - a.lat, lower.north as int, n, d);
    assert((upper.south - a.lat) * d <= (upper.north - a.lat) * d) by (nonlinear_arith)
        requires
            upper.south <= upper.north,
            0 < d,
    ;
    assert forall|m: int, c: int| is_part(m, c) && #[trigger] inside(a, b, lower, m, c) implies (
    a.lat < b.lat ==> m * d <= n * c) && (a.lat > b.lat ==> n * c <= m * d) by {
        lemma_reaches(b.lat - a.lat, lower.north - a.lat, n, d, m, c);
    }
    assert forall|m: int, c: int| is_part(m, c) && #[trigger] inside(a, b, upper, m, c) implies (
    a.lat < b.lat ==> n * c <= m * d) && (a.lat > b.lat ==> m * d <= n * c) by {
        lemma_reaches(b.lat - a.lat, lower.north - a.lat, n, d, m, c);
    }
}

/// Whether two places stand one behind the other in one of the runs.
pub open spec fn runs_through(runs: Seq<Seq<Place>>, k: int, j: int, a: Place, b: Place) -> bool {
    &&& 0 <= k < runs.len()
    &&& 0 <= j < runs[k].len() - 1
    &&& runs[k][j] == a
    &&& runs[k][j + 1] == b
}

/// Every segment of a line that has a part in the tile is drawn: where it enters
/// and where it leaves stand one behind the other in a run.
pub proof fn every_segment_in_the_tile_is_in_a_run(line: Seq<Place>, t: TileEdges, n: int, i: int)
    requires
        0 <= i < n < line.len(),
        kept(line[i], line[i + 1], t) is Some,
    ensures
        exists|k: int, j: int|
            #[trigger] runs_through(
                runs_inside(line, t, n),
                k,
                j,
                (kept(line[i], line[i + 1], t)->0).0,
                (kept(line[i], line[i + 1], t)->0).1,
            ),
    decreases n,
{
    let rest = runs_inside(line, t, n - 1);
    let all = runs_inside(line, t, n);
    let ends = kept(line[i], line[i + 1], t)->0;
    lemma_runs_inside(line, t, n - 1);
    if i < n - 1 {
        every_segment_in_the_tile_is_in_a_run(line, t, n - 1, i);
        let (k, j) = choose|k: int, j: int| #[trigger] runs_through(rest, k, j, ends.0, ends.1);
        assert(runs_through(all, k, j, ends.0, ends.1));
    } else if rest.len() > 0 && rest.last().last() == ends.0 {
        let k = rest.len() - 1;
        let j = rest.last().len() - 1;
        assert(rest[k].len() >= 2);
        assert(runs_through(all, k, j, ends.0, ends.1));
    } else {
        assert(runs_through(all, rest.len() as int, 0, ends.0, ends.1));
    }
}

/// Nothing else is drawn: two places one behind the other in a run are where some
/// segment enters and where it leaves.
pub proof fn every_step_of_a_run_is_a_segment(line: Seq<Place>, t: TileEdges, n: int, k: int, j: int)
    requires
        0 <= n < line.len() || n == 0,
        0 <= k < runs_inside(line, t, n).len(),
        0 <= j < runs_inside(line, t, n)[k].len() - 1,
    ensures
        exists|i: int|
            0 <= i < n && kept(#[trigger] line[i], line[i + 1], t) == Some(
                (runs_inside(line, t, n)[k][j], runs_inside(line, t, n)[k][j + 1]),
            ),
    decreases n,
{
    let rest = runs_inside(line, t, n - 1);
    let all = runs_inside(line, t, n);
    let ends = kept(line[n - 1], line[n], t);
    if k < rest.len() && j < rest[k].len() - 1 {
        assert(all[k][j] == rest[k][j] && all[k][j + 1] == rest[k][j + 1]);
        every_step_of_a_run_is_a_segment(line, t, n - 1, k, j);
        let i = choose|i: int|
            0 <= i < n - 1 && kept(#[trigger] line[i], line[i + 1], t) == Some((rest[k][j], rest[k][j + 1]));
        assert(kept(line[i], line[i + 1], t) == Some((all[k][j], all[k][j + 1])));
    } else {
        lemma_runs_inside(line, t, n - 1);
        assert(ends is Some);
        if k < rest.len() {
            assert(rest[k].len() >= 2);
            assert(all[k] == rest[k].push((ends->0).1));
            assert(j == rest[k].len() - 1);
            assert(all[k][j] == rest[k].last());
        }
        let i = n - 1;
        assert(kept(line[i], line[i + 1], t) == Some((all[k][j], all[k][j + 1])));
    }
}

} // verus!
