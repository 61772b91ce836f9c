//! Registering crosswalks against the carriageways they cross.
//!
//! The interval a crossing lies on asphalt is computed once: the paint is its
//! inside and the kerb stubs are its outside, so the two meet at the kerb by
//! construction.
use vstd::prelude::*;
use crate::arith::{abs, clamp, distance, lemma_part_way, max, min, part_way, quot_of};

pub mod chords;

verus! {

/// How far a crossing's mapped line is extended past each end.
pub const EXTEND_UM: i64 = 8_000_000;

/// Registration sampling step along a crossing line.
pub const STEP_UM: i64 = 250_000;

/// Two on-asphalt intervals closer than this merge.
pub const MERGE_UM: i64 = 1_000_000;

/// Shortest on-asphalt interval that counts as a crossed carriageway.
pub const MIN_CHORD_UM: i64 = 1_500_000;

/// Shortest kerb stub worth a band.
pub const MIN_STUB_UM: i64 = 400_000;

/// How far a carriageway's height may lie from the crossing's own level.
pub const LEVEL_UM: u64 = 3_000_000;

/// Square of the smallest sine of the angle at which a crossing meets a street,
/// in millionths: the sine of twenty degrees, to the thousandth.
pub const MIN_INCIDENCE_SQUARED: i128 = 116_964;

/// How far along a crossed street's arc its asphalt answers.
pub const ARC_WINDOW_UM: i128 = 25_000_000;

/// The longest crossing line.
pub const MAX_LINE_UM: i64 = 1_000_000_000_000;

/// A plan point in millimetres from a crossing's own origin.
#[derive(Clone, Copy, Debug, PartialEq, Eq, Structural)]
pub struct Spot {
    pub x: i64,
    pub y: i64,
}

/// How far from its origin a crossing's plane reaches.
pub const PLANE_MM: i64 = 0x200_0000;

pub open spec fn in_plane(p: Spot) -> bool {
    -PLANE_MM <= p.x <= PLANE_MM && -PLANE_MM <= p.y <= PLANE_MM
}

/// Whether two signed areas lie on opposite sides of zero.
pub open spec fn opposite(u: int, v: int) -> bool {
    (u < 0 && 0 < v) || (v < 0 && 0 < u)
}

/// Twice the area of the triangle `p`, `q`, `r`, positive where `r` lies left
/// of the way from `p` to `q`.
pub open spec fn side(p: Spot, q: Spot, r: Spot) -> int {
    (q.x - p.x) * (r.y - p.y) - (q.y - p.y) * (r.x - p.x)
}

/// Whether two segments properly cross: each has its ends on opposite sides of
/// the other. Touching is not crossing.
pub open spec fn crossing(a0: Spot, a1: Spot, b0: Spot, b1: Spot) -> bool {
    &&& opposite(side(b0, b1, a0), side(b0, b1, a1))
    &&& opposite(side(a0, a1, b0), side(a0, a1, b1))
}

/// The signed area of two vectors.
pub open spec fn cross(ux: int, uy: int, vx: int, vy: int) -> int {
    ux * vy - uy * vx
}

pub open spec fn norm(ux: int, uy: int) -> int {
    ux * ux + uy * uy
}

/// Whether two segments meet at a believable incidence: the sine of the angle
/// between them is at least the smallest one.
pub open spec fn incident(w0: Spot, w1: Spot, a: Spot, b: Spot) -> bool {
    let (ux, uy) = (w1.x - w0.x, w1.y - w0.y);
    let (vx, vy) = (b.x - a.x, b.y - a.y);
    let c = cross(ux, uy, vx, vy);
    &&& norm(ux, uy) > 0
    &&& norm(vx, vy) > 0
    &&& (c * c) * 1_000_000 >= MIN_INCIDENCE_SQUARED * (norm(ux, uy) * norm(vx, vy))
}

proof fn lemma_small_product(a: int, b: int, m: int)
    requires
        -m <= a <= m,
        -m <= b <= m,
    ensures
        -(m * m) <= a * b <= m * m,
{
    assert(-(m * m) <= a * b <= m * m) by (nonlinear_arith)
        requires
            -m <= a <= m,
            -m <= b <= m,
    ;
}

fn side_of(p: Spot, q: Spot, r: Spot) -> (v: i128)
    requires
        in_plane(p),
        in_plane(q),
        in_plane(r),
    ensures
        v == side(p, q, r),
        -0x40_0000_0000_0000 <= v <= 0x40_0000_0000_0000,
{
    let (ux, uy): (i128, i128) = (q.x as i128 - p.x as i128, q.y as i128 - p.y as i128);
    let (vx, vy): (i128, i128) = (r.x as i128 - p.x as i128, r.y as i128 - p.y as i128);
    proof {
        lemma_small_product(ux as int, vy as int, 0x400_0000);
        lemma_small_product(uy as int, vx as int, 0x400_0000);
    }
    ux * vy - uy * vx
}

/// Whether two segments properly cross.
pub fn segments_cross(a0: Spot, a1: Spot, b0: Spot, b1: Spot) -> (yes: bool)
    requires
        in_plane(a0) && in_plane(a1) && in_plane(b0) && in_plane(b1),
    ensures
        yes == crossing(a0, a1, b0, b1),
{
    let (d1, d2): (i128, i128) = (side_of(b0, b1, a0), side_of(b0, b1, a1));
    let (d3, d4): (i128, i128) = (side_of(a0, a1, b0), side_of(a0, a1, b1));
    ((d1 < 0 && 0 < d2) || (d2 < 0 && 0 < d1)) && ((d3 < 0 && 0 < d4) || (d4 < 0 && 0 < d3))
}

/// Whether two crossing segments meet at a believable incidence.
pub fn incidence_ok(w0: Spot, w1: Spot, a: Spot, b: Spot) -> (yes: bool)
    requires
        in_plane(w0) && in_plane(w1) && in_plane(a) && in_plane(b),
    ensures
        yes == incident(w0, w1, a, b),
{
    let (ux, uy): (i128, i128) = (w1.x as i128 - w0.x as i128, w1.y as i128 - w0.y as i128);
    let (vx, vy): (i128, i128) = (b.x as i128 - a.x as i128, b.y as i128 - a.y as i128);
    proof {
        lemma_small_product(ux as int, vy as int, 0x400_0000);
        lemma_small_product(uy as int, vx as int, 0x400_0000);
        lemma_small_product(ux as int, ux as int, 0x400_0000);
        lemma_small_product(uy as int, uy as int, 0x400_0000);
        lemma_small_product(vx as int, vx as int, 0x400_0000);
        lemma_small_product(vy as int, vy as int, 0x400_0000);
    }
    let c: i128 = ux * vy - uy * vx;
    let lu: i128 = ux * ux + uy * uy;
    let lv: i128 = vx * vx + vy * vy;
    proof {
        lemma_small_product(c as int, c as int, 0x20_0000_0000_0000);
        lemma_small_product(lu as int, lv as int, 0x20_0000_0000_0000);
    }
    if lu <= 0 || lv <= 0 {
        return false;
    }
    let cc: i128 = c * c;
    let ll: i128 = lu * lv;
    cc * 1_000_000 >= MIN_INCIDENCE_SQUARED * ll
}

/// How far along the first segment two crossing segments meet: a fraction whose
/// parts share a sign.
pub open spec fn meets_at(a0: Spot, a1: Spot, b0: Spot, b1: Spot) -> (int, int) {
    let d = cross(a1.x - a0.x, a1.y - a0.y, b1.x - b0.x, b1.y - b0.y);
    let n = cross(b0.x - a0.x, b0.y - a0.y, b1.x - b0.x, b1.y - b0.y);
    if d < 0 {
        (-n, -d)
    } else {
        (n, d)
    }
}

/// Where two crossing segments meet, rounded toward the first one's start.
pub open spec fn meeting(a0: Spot, a1: Spot, b0: Spot, b1: Spot) -> (int, int) {
    let (n, d) = meets_at(a0, a1, b0, b1);
    (part_way(a0.x as int, a1.x as int, n, d), part_way(a0.y as int, a1.y as int, n, d))
}

proof fn lemma_meets_at(a0: Spot, a1: Spot, b0: Spot, b1: Spot)
    requires
        crossing(a0, a1, b0, b1),
    ensures
        meets_at(a0, a1, b0, b1).1 > 0,
        0 <= meets_at(a0, a1, b0, b1).0 <= meets_at(a0, a1, b0, b1).1,
{
    let d = cross(a1.x - a0.x, a1.y - a0.y, b1.x - b0.x, b1.y - b0.y);
    let n = cross(b0.x - a0.x, b0.y - a0.y, b1.x - b0.x, b1.y - b0.y);
    let (ax, ay, bx, by) = (a0.x as int, a0.y as int, a1.x as int, a1.y as int);
    let (cx, cy, ex, ey) = (b0.x as int, b0.y as int, b1.x as int, b1.y as int);
    assert(side(b0, b1, a0) == n) by {
        assert((ex - cx) * (ay - cy) - (ey - cy) * (ax - cx) == (cx - ax) * (ey - cy) - (cy - ay) * (ex - cx))
            by (nonlinear_arith);
    }
    assert(side(b0, b1, a1) == n - d) by {
        assert((ex - cx) * (by - cy) - (ey - cy) * (bx - cx) == ((cx - ax) * (ey - cy) - (cy - ay) * (ex - cx)) - ((bx
            - ax) * (ey - cy) - (by - ay) * (ex - cx))) by (nonlinear_arith);
    }
}

/// Where two crossing segments meet lies within the extent of the first.
pub proof fn a_crossing_lies_on_the_line(a0: Spot, a1: Spot, b0: Spot, b1: Spot)
    requires
        crossing(a0, a1, b0, b1),
    ensures
        min(a0.x as int, a1.x as int) <= meeting(a0, a1, b0, b1).0 <= max(a0.x as int, a1.x as int),
        min(a0.y as int, a1.y as int) <= meeting(a0, a1, b0, b1).1 <= max(a0.y as int, a1.y as int),
{
    lemma_meets_at(a0, a1, b0, b1);
    let (n, d) = meets_at(a0, a1, b0, b1);
    lemma_part_way(a0.x as int, a1.x as int, n, d);
    lemma_part_way(a0.y as int, a1.y as int, n, d);
}

/// Where two segments that cross meet.
pub fn seg_intersection(a0: Spot, a1: Spot, b0: Spot, b1: Spot) -> (out: Spot)
    requires
        in_plane(a0) && in_plane(a1) && in_plane(b0) && in_plane(b1),
        crossing(a0, a1, b0, b1),
    ensures
        out.x == meeting(a0, a1, b0, b1).0,
        out.y == meeting(a0, a1, b0, b1).1,
{
    let (ux, uy): (i128, i128) = (a1.x as i128 - a0.x as i128, a1.y as i128 - a0.y as i128);
    let (vx, vy): (i128, i128) = (b1.x as i128 - b0.x as i128, b1.y as i128 - b0.y as i128);
    let (wx, wy): (i128, i128) = (b0.x as i128 - a0.x as i128, b0.y as i128 - a0.y as i128);
    proof {
        lemma_small_product(ux as int, vy as int, 0x400_0000);
        lemma_small_product(uy as int, vx as int, 0x400_0000);
        lemma_small_product(wx as int, vy as int, 0x400_0000);
        lemma_small_product(wy as int, vx as int, 0x400_0000);
        lemma_meets_at(a0, a1, b0, b1);
        a_crossing_lies_on_the_line(a0, a1, b0, b1);
    }
    let mut d: i128 = ux * vy - uy * vx;
    let mut n: i128 = wx * vy - wy * vx;
    if d < 0 {
        d = -d;
        n = -n;
    }
    proof {
        lemma_small_product(ux as int, n as int, 0x20_0000_0000_0000);
        lemma_small_product(uy as int, n as int, 0x20_0000_0000_0000);
    }
    let px: i128 = quot_of(ux * n, d as u128);
    let py: i128 = quot_of(uy * n, d as u128);
    Spot { x: (a0.x as i128 + px) as i64, y: (a0.y as i128 + py) as i64 }
}

/// Which of the first `n` stations of a line lie off the line through `a` and
/// `b`. A line that passes over a street at a station crosses it between the
/// stations before and after.
pub open spec fn off_line(stations: Seq<Spot>, a: Spot, b: Spot, n: int) -> Seq<usize>
    decreases n,
{
    if n <= 0 {
        Seq::empty()
    } else if side(a, b, stations[n - 1]) == 0 {
        off_line(stations, a, b, n - 1)
    } else {
        off_line(stations, a, b, n - 1).push((n - 1) as usize)
    }
}

/// The stations of a line that lie off the line through `a` and `b`, so that
/// each has a side.
pub fn clear_stations(stations: &[Spot], a: Spot, b: Spot) -> (out: Vec<usize>)
    requires
        in_plane(a) && in_plane(b),
        forall|i: int| 0 <= i < stations@.len() ==> in_plane(#[trigger] stations@[i]),
    ensures
        out@ == off_line(stations@, a, b, stations@.len() as int),
{
    let mut out: Vec<usize> = Vec::new();
    let mut i: usize = 0;
    while i < stations.len()
        invariant
            i <= stations@.len(),
            in_plane(a) && in_plane(b),
            forall|k: int| 0 <= k < stations@.len() ==> in_plane(#[trigger] stations@[k]),
            out@ == off_line(stations@, a, b, i as int),
        decreases stations@.len() - i,
    {
        assert(in_plane(stations@[i as int]));
        if side_of(a, b, stations[i]) != 0 {
            out.push(i);
        }
        i = i + 1;
    }
    out
}

/// Crossing is symmetric, and reversing either segment changes nothing.
pub proof fn crossing_is_symmetric(a0: Spot, a1: Spot, b0: Spot, b1: Spot)
    ensures
        crossing(a0, a1, b0, b1) == crossing(b0, b1, a0, a1),
        crossing(a0, a1, b0, b1) == crossing(a1, a0, b0, b1),
        crossing(a0, a1, b0, b1) == crossing(a0, a1, b1, b0),
{
    lemma_side_flips(a0, a1, b0);
    lemma_side_flips(a0, a1, b1);
    lemma_side_flips(b0, b1, a0);
    lemma_side_flips(b0, b1, a1);
}

proof fn lemma_side_flips(p: Spot, q: Spot, r: Spot)
    ensures
        side(q, p, r) == -side(p, q, r),
{
    let (px, py, qx, qy, rx, ry) = (p.x as int, p.y as int, q.x as int, q.y as int, r.x as int, r.y as int);
    assert((px - qx) * (ry - qy) - (py - qy) * (rx - qx) == -((qx - px) * (ry - py) - (qy - py) * (rx - px)))
        by (nonlinear_arith);
}

/// A line that stays on one side of a street does not cross it, however close
/// it runs, even where it touches.
pub proof fn a_line_beside_a_street_crosses_nothing(a0: Spot, a1: Spot, b0: Spot, b1: Spot)
    requires
        !opposite(side(b0, b1, a0), side(b0, b1, a1)),
    ensures
        !crossing(a0, a1, b0, b1),
{
}

// ---------------------------------------------------------------------------
// The level a crossing is drawn at, and the streets it crosses there.
// ---------------------------------------------------------------------------

/// The middle one of three.
pub open spec fn median(a: int, b: int, c: int) -> int {
    max(min(a, b), min(max(a, b), c))
}

/// The level a crossing is drawn at: the median of the ground at three
/// stations of its line, so one station over a terrace edge cannot move it.
pub fn crossing_level_anchor(a: i64, b: i64, c: i64) -> (out: i64)
    ensures
        out == median(a as int, b as int, c as int),
{
    let (lo, hi): (i64, i64) = if a < b { (a, b) } else { (b, a) };
    let mid: i64 = if hi < c { hi } else { c };
    if lo < mid {
        mid
    } else {
        lo
    }
}

/// At most one of the three is further from the median than the others: the
/// median lies between any two bounds that hold for two of the three.
pub proof fn one_station_cannot_move_the_level(a: int, b: int, c: int, lo: int, hi: int)
    requires
        lo <= a <= hi,
        lo <= b <= hi,
    ensures
        lo <= median(a, b, c) <= hi,
        lo <= median(a, c, b) <= hi,
        lo <= median(c, a, b) <= hi,
{
}

pub open spec fn at_level(height: Option<i64>, anchor: Option<i64>) -> bool {
    height is Some && anchor is Some ==> abs(height->0 - anchor->0) <= LEVEL_UM
}

/// Whether a carriageway is at the crossing's own level. Where there is nothing
/// to measure the answer is yes.
pub fn host_level_ok(height: Option<i64>, anchor: Option<i64>) -> (ok: bool)
    ensures
        ok == at_level(height, anchor),
{
    match (height, anchor) {
        (Some(h), Some(a)) => distance(h, a) <= LEVEL_UM,
        _ => true,
    }
}

/// A piece of a crossing's line near a piece of a carriageway: where each runs,
/// where along the carriageway the two would meet, and its height there.
#[derive(Debug)]
pub struct Candidate {
    pub w0: Spot,
    pub w1: Spot,
    pub a: Spot,
    pub b: Spot,
    pub corridor: u32,
    pub arc: i64,
    pub height: Option<i64>,
}

pub open spec fn candidate_fits(c: Candidate) -> bool {
    in_plane(c.w0) && in_plane(c.w1) && in_plane(c.a) && in_plane(c.b)
}

/// Whether a candidate is a street the crossing crosses.
pub open spec fn crosses(c: Candidate, anchor: Option<i64>) -> bool {
    crossing(c.w0, c.w1, c.a, c.b) && incident(c.w0, c.w1, c.a, c.b) && at_level(c.height, anchor)
}

/// A crossed street and where along it it is crossed.
#[derive(Debug)]
pub struct Host {
    pub corridor: u32,
    pub arcs: Vec<i64>,
}

pub struct HostModel {
    pub corridor: u32,
    pub arcs: Seq<i64>,
}

pub open spec fn host_model(h: Host) -> HostModel {
    HostModel { corridor: h.corridor, arcs: h.arcs@ }
}

pub open spec fn host_models(hosts: Seq<Host>) -> Seq<HostModel> {
    Seq::new(hosts.len(), |i: int| host_model(hosts[i]))
}

/// The first of the first `n` hosts that is a corridor.
pub open spec fn host_slot(hosts: Seq<HostModel>, corridor: u32, n: int) -> Option<int>
    decreases n,
{
    if n <= 0 {
        None
    } else {
        match host_slot(hosts, corridor, n - 1) {
            Some(k) => Some(k),
            None => if hosts[n - 1].corridor == corridor {
                Some(n - 1)
            } else {
                None
            },
        }
    }
}

/// The hosts after one more street is crossed at an arc.
pub open spec fn hosted(hosts: Seq<HostModel>, corridor: u32, arc: i64) -> Seq<HostModel> {
    match host_slot(hosts, corridor, hosts.len() as int) {
        Some(k) => hosts.update(k, HostModel { corridor: hosts[k].corridor, arcs: hosts[k].arcs.push(arc) }),
        None => hosts.push(HostModel { corridor, arcs: seq![arc] }),
    }
}

/// The hosts among the first `n` candidates.
pub open spec fn hosts_of(candidates: Seq<Candidate>, anchor: Option<i64>, n: int) -> Seq<HostModel>
    decreases n,
{
    if n <= 0 {
        Seq::empty()
    } else {
        let rest = hosts_of(candidates, anchor, n - 1);
        let c = candidates[n - 1];
        if crosses(c, anchor) {
            hosted(rest, c.corridor, c.arc)
        } else {
            rest
        }
    }
}

proof fn lemma_host_slot(hosts: Seq<HostModel>, corridor: u32, n: int)
    ensures
        match host_slot(hosts, corridor, n) {
            Some(k) => 0 <= k < n && hosts[k].corridor == corridor,
            None => forall|k: int| 0 <= k < n ==> (#[trigger] hosts[k]).corridor != corridor,
        },
    decreases n,
{
    if n > 0 {
        lemma_host_slot(hosts, corridor, n - 1);
    }
}

/// Every host is a street some candidate crosses, at an arc it crosses it at.
pub proof fn hosts_are_crossed(candidates: Seq<Candidate>, anchor: Option<i64>, n: int, k: int, j: int)
    requires
        0 <= n <= candidates.len(),
        0 <= k < hosts_of(candidates, anchor, n).len(),
        0 <= j < hosts_of(candidates, anchor, n)[k].arcs.len(),
    ensures
        exists|i: int|
            {
                &&& 0 <= i < n
                &&& crosses(#[trigger] candidates[i], anchor)
                &&& candidates[i].corridor == hosts_of(candidates, anchor, n)[k].corridor
                &&& candidates[i].arc == hosts_of(candidates, anchor, n)[k].arcs[j]
            },
    decreases n,
{
    let rest = hosts_of(candidates, anchor, n - 1);
    let c = candidates[n - 1];
    if crosses(c, anchor) {
        lemma_host_slot(rest, c.corridor, rest.len() as int);
        let slot = host_slot(rest, c.corridor, rest.len() as int);
        let all = hosts_of(candidates, anchor, n);
        if slot is Some && slot->0 == k && j == rest[k].arcs.len() {
            assert(all[k].arcs[j] == c.arc);
        } else if slot is None && k == rest.len() {
            assert(all[k].arcs[0] == c.arc);
        } else {
            assert(all[k].corridor == rest[k].corridor);
            assert(all[k].arcs[j] == rest[k].arcs[j]);
            hosts_are_crossed(candidates, anchor, n - 1, k, j);
        }
    } else {
        hosts_are_crossed(candidates, anchor, n - 1, k, j);
    }
}

/// The carriageways a crossing's line crosses, in the order they are met.
pub fn crossed_hosts(candidates: &[Candidate], anchor: Option<i64>) -> (out: Vec<Host>)
    requires
        forall|i: int| 0 <= i < candidates@.len() ==> candidate_fits(#[trigger] candidates@[i]),
    ensures
        host_models(out@) == hosts_of(candidates@, anchor, candidates@.len() as int),
{
    let mut out: Vec<Host> = Vec::new();
    assert(host_models(out@) =~= Seq::<HostModel>::empty());
    let mut i: usize = 0;
    while i < candidates.len()
        invariant
            i <= candidates@.len(),
            forall|k: int| 0 <= k < candidates@.len() ==> candidate_fits(#[trigger] candidates@[k]),
            host_models(out@) == hosts_of(candidates@, anchor, i as int),
        decreases candidates@.len() - i,
    {
        let c: &Candidate = &candidates[i];
        assert(candidate_fits(candidates@[i as int]));
        if segments_cross(c.w0, c.w1, c.a, c.b) && incidence_ok(c.w0, c.w1, c.a, c.b) && host_level_ok(
            c.height,
            anchor,
        ) {
            let ghost before = host_models(out@);
            let mut slot: Option<usize> = None;
            let mut k: usize = 0;
            while k < out.len()
                invariant
                    k <= out@.len(),
                    before == host_models(out@),
                    match host_slot(before, c.corridor, k as int) {
                        Some(s) => slot is Some && slot->0 == s && s < k,
                        None => slot is None,
                    },
                decreases out@.len() - k,
            {
                assert(before[k as int] == host_model(out@[k as int]));
                if slot.is_none() && out[k].corridor == c.corridor {
                    slot = Some(k);
                }
                k = k + 1;
            }
            match slot {
                Some(s) => {
                    assert(before[s as int] == host_model(out@[s as int]));
                    out[s].arcs.push(c.arc);
                },
                None => {
                    let mut arcs: Vec<i64> = Vec::new();
                    arcs.push(c.arc);
                    assert(arcs@ =~= seq![c.arc]);
                    out.push(Host { corridor: c.corridor, arcs });
                },
            }
            assert(host_models(out@) =~= hosted(before, c.corridor, c.arc));
        }
        i = i + 1;
    }
    out
}

// ---------------------------------------------------------------------------
// Where the line lies on asphalt.
// ---------------------------------------------------------------------------

/// A piece of a carriageway as seen from a point: the arcs it runs between and
/// how far it is.
#[derive(Clone, Copy, Debug, PartialEq, Eq, Structural)]
pub struct EdgeAt {
    pub arc0: i64,
    pub arc1: i64,
    pub distance: u64,
}

/// A carriageway as seen from a point: its drawn half width, its pieces and
/// its height there.
#[derive(Debug)]
pub struct AsphaltAt {
    pub corridor: u32,
    pub half: Option<u64>,
    pub edges: Vec<EdgeAt>,
    pub height: Option<i64>,
}

/// Whether a piece lies within the window of an arc the street is crossed at.
pub open spec fn near_station(e: EdgeAt, arcs: Seq<i64>) -> bool {
    exists|k: int|
        0 <= k < arcs.len() && e.arc0 <= (#[trigger] arcs[k]) + ARC_WINDOW_UM && e.arc1 >= arcs[k] - ARC_WINDOW_UM
}

pub open spec fn edge_covers(e: EdgeAt, arcs: Seq<i64>, half: u64) -> bool {
    near_station(e, arcs) && e.distance <= half
}

/// Whether a carriageway lies under a point, near a station it is crossed at
/// and at the crossing's level.
pub open spec fn on_host(arcs: Seq<i64>, at: AsphaltAt, anchor: Option<i64>) -> bool {
    &&& at.half is Some
    &&& exists|k: int| 0 <= k < at.edges@.len() && edge_covers(#[trigger] at.edges@[k], arcs, at.half->0)
    &&& at_level(at.height, anchor)
}

/// Whether a point lies on a carriageway the crossing crosses.
pub open spec fn on_crossed(hosts: Seq<HostModel>, seen: Seq<AsphaltAt>, anchor: Option<i64>) -> bool {
    exists|h: int, s: int|
        0 <= h < hosts.len() && 0 <= s < seen.len() && (#[trigger] hosts[h]).corridor == (#[trigger] seen[s]).corridor
            && on_host(hosts[h].arcs, seen[s], anchor)
}

fn covers_edge(arcs: &Vec<i64>, e: &EdgeAt, half: u64) -> (yes: bool)
    ensures
        yes == edge_covers(*e, arcs@, half),
{
    if e.distance > half {
        return false;
    }
    let mut k: usize = 0;
    while k < arcs.len()
        invariant
            k <= arcs@.len(),
            e.distance <= half,
            forall|i: int|
                0 <= i < k ==> !(e.arc0 <= (#[trigger] arcs@[i]) + ARC_WINDOW_UM && e.arc1 >= arcs@[i] - ARC_WINDOW_UM),
        decreases arcs@.len() - k,
    {
        let arc: i128 = arcs[k] as i128;
        if e.arc0 as i128 <= arc + ARC_WINDOW_UM && e.arc1 as i128 >= arc - ARC_WINDOW_UM {
            assert(arcs@[k as int] == arc);
            return true;
        }
        k = k + 1;
    }
    false
}

fn lies_on_host(arcs: &Vec<i64>, at: &AsphaltAt, anchor: Option<i64>) -> (yes: bool)
    ensures
        yes == on_host(arcs@, *at, anchor),
{
    match at.half {
        None => false,
        Some(half) => {
            let mut k: usize = 0;
            while k < at.edges.len()
                invariant
                    k <= at.edges@.len(),
                    at.half == Some(half),
                    forall|i: int| 0 <= i < k ==> !edge_covers(#[trigger] at.edges@[i], arcs@, half),
                decreases at.edges@.len() - k,
            {
                if covers_edge(arcs, &at.edges[k], half) {
                    assert(edge_covers(at.edges@[k as int], arcs@, half));
                    return host_level_ok(at.height, anchor);
                }
                k = k + 1;
            }
            false
        },
    }
}

/// Whether a point lies on a carriageway the crossing crosses.
pub fn on_asphalt(hosts: &Vec<Host>, seen: &Vec<AsphaltAt>, anchor: Option<i64>) -> (yes: bool)
    ensures
        yes == on_crossed(host_models(hosts@), seen@, anchor),
{
    let ghost models = host_models(hosts@);
    let mut h: usize = 0;
    while h < hosts.len()
        invariant
            h <= hosts@.len(),
            models == host_models(hosts@),
            forall|i: int, s: int|
                0 <= i < h && 0 <= s < seen@.len() && (#[trigger] models[i]).corridor == (#[trigger] seen@[s]).corridor
                    ==> !on_host(models[i].arcs, seen@[s], anchor),
        decreases hosts@.len() - h,
    {
        assert(models[h as int] == host_model(hosts@[h as int]));
        let mut s: usize = 0;
        while s < seen.len()
            invariant
                s <= seen@.len(),
                h < hosts@.len(),
                models == host_models(hosts@),
                models[h as int] == host_model(hosts@[h as int]),
                forall|k: int|
                    0 <= k < s && models[h as int].corridor == (#[trigger] seen@[k]).corridor ==> !on_host(
                        models[h as int].arcs,
                        seen@[k],
                        anchor,
                    ),
            decreases seen@.len() - s,
        {
            if hosts[h].corridor == seen[s].corridor && lies_on_host(&hosts[h].arcs, &seen[s], anchor) {
                assert(models[h as int].corridor == seen@[s as int].corridor);
                return true;
            }
            s = s + 1;
        }
        h = h + 1;
    }
    false
}

/// Where the `k`th sample of a line stands.
pub open spec fn sample_at(k: int) -> int {
    k * STEP_UM - EXTEND_UM
}

/// How many samples a line of length `total` takes.
pub open spec fn sample_count(total: int) -> int {
    (total + 2 * EXTEND_UM) / STEP_UM as int + 1
}

/// The intervals of a line on asphalt so far, and where an unfinished one began.
pub struct Marched {
    pub on: Seq<(i64, i64)>,
    pub open: Option<i64>,
}

/// What the first `n` samples found.
pub open spec fn marched(inside: Seq<bool>, n: int) -> Marched
    decreases n,
{
    if n <= 0 {
        Marched { on: Seq::empty(), open: None }
    } else {
        let m = marched(inside, n - 1);
        match (inside[n - 1], m.open) {
            (true, None) => Marched { open: Some(sample_at(n - 1) as i64), ..m },
            (false, Some(s)) => Marched { on: m.on.push((s, sample_at(n - 2) as i64)), open: None },
            _ => m,
        }
    }
}

/// The intervals of a line of length `total` on asphalt.
pub open spec fn on_intervals(inside: Seq<bool>, total: int) -> Seq<(i64, i64)> {
    let m = marched(inside, inside.len() as int);
    match m.open {
        Some(s) => m.on.push((s, (total + EXTEND_UM) as i64)),
        None => m.on,
    }
}

/// The first `n` intervals, those closer than a lane divider merged.
pub open spec fn merged_on(on: Seq<(i64, i64)>, n: int) -> Seq<(i64, i64)>
    decreases n,
{
    if n <= 0 {
        Seq::empty()
    } else {
        let rest = merged_on(on, n - 1);
        let (s, e) = on[n - 1];
        if rest.len() > 0 && s - rest.last().1 < MERGE_UM {
            rest.update(rest.len() - 1, (rest.last().0, e))
        } else {
            rest.push((s, e))
        }
    }
}

/// The first `n` intervals that are long enough to have crossed a carriageway.
pub open spec fn long_enough(on: Seq<(i64, i64)>, n: int) -> Seq<(i64, i64)>
    decreases n,
{
    if n <= 0 {
        Seq::empty()
    } else {
        let rest = long_enough(on, n - 1);
        if on[n - 1].1 - on[n - 1].0 >= MIN_CHORD_UM {
            rest.push(on[n - 1])
        } else {
            rest
        }
    }
}

/// The chords of a line: its asphalt intervals, merged across noise, without
/// the grazes.
pub open spec fn chords_of(inside: Seq<bool>, total: int) -> Seq<(i64, i64)> {
    let on = on_intervals(inside, total);
    let merged = merged_on(on, on.len() as int);
    long_enough(merged, merged.len() as int)
}

pub open spec fn stub_pushed(stubs: Seq<(i64, i64)>, from: int, to: int) -> Seq<(i64, i64)> {
    if to - from < MIN_STUB_UM {
        stubs
    } else {
        stubs.push((from as i64, to as i64))
    }
}

/// How far the first `n` chords reach.
pub open spec fn reached(chords: Seq<(i64, i64)>, n: int) -> int
    decreases n,
{
    if n <= 0 {
        0
    } else {
        max(chords[n - 1].1 as int, reached(chords, n - 1))
    }
}

/// The stubs before the first `n` chords.
pub open spec fn stubs_before(chords: Seq<(i64, i64)>, total: int, n: int) -> Seq<(i64, i64)>
    decreases n,
{
    if n <= 0 {
        Seq::empty()
    } else {
        stub_pushed(
            stubs_before(chords, total, n - 1),
            min(reached(chords, n - 1), total),
            clamp(chords[n - 1].0 as int, 0, total),
        )
    }
}

/// The kerb stubs of a line: the mapped line outside every chord.
pub open spec fn stubs_of(chords: Seq<(i64, i64)>, total: int) -> Seq<(i64, i64)> {
    let n = chords.len() as int;
    stub_pushed(stubs_before(chords, total, n), clamp(reached(chords, n), 0, total), total)
}

/// Intervals in order, each running forward and at least `gap` short of the
/// next.
pub open spec fn apart(on: Seq<(i64, i64)>, gap: int) -> bool {
    &&& forall|i: int| 0 <= i < on.len() ==> (#[trigger] on[i]).0 <= on[i].1
    &&& forall|i: int, j: int| 0 <= i < j < on.len() ==> (#[trigger] on[i]).1 + gap <= (#[trigger] on[j]).0
}

/// Whether every interval lies between two bounds.
pub open spec fn between(on: Seq<(i64, i64)>, lo: int, hi: int) -> bool {
    forall|i: int| 0 <= i < on.len() ==> lo <= (#[trigger] on[i]).0 && on[i].1 <= hi
}

proof fn lemma_marched(inside: Seq<bool>, n: int)
    requires
        0 <= n <= inside.len(),
        sample_at(n) <= i64::MAX,
    ensures
        apart(marched(inside, n).on, 1),
        between(marched(inside, n).on, sample_at(0), sample_at(n - 1)),
        marched(inside, n).open is Some ==> {
            let s = marched(inside, n).open->0;
            &&& sample_at(0) <= s <= sample_at(n - 1)
            &&& forall|i: int|
                0 <= i < marched(inside, n).on.len() ==> (#[trigger] marched(inside, n).on[i]).1 + 1 <= s
            &&& n > 0 && inside[n - 1]
        },
        marched(inside, n).open is None && n > 0 ==> !inside[n - 1],
    decreases n,
{
    if n > 0 {
        lemma_marched(inside, n - 1);
    }
}

proof fn lemma_on_intervals(inside: Seq<bool>, total: int)
    requires
        0 < total <= MAX_LINE_UM,
        inside.len() == sample_count(total),
    ensures
        apart(on_intervals(inside, total), 1),
        between(on_intervals(inside, total), -EXTEND_UM, total + EXTEND_UM),
{
    let n = inside.len() as int;
    lemma_marched(inside, n);
    assert(sample_at(n - 1) <= total + EXTEND_UM);
}

proof fn lemma_merged_on(on: Seq<(i64, i64)>, n: int, lo: int, hi: int)
    requires
        0 <= n <= on.len(),
        apart(on, 1),
        between(on, lo, hi),
    ensures
        apart(merged_on(on, n), MERGE_UM as int),
        between(merged_on(on, n), lo, hi),
        n > 0 ==> merged_on(on, n).len() > 0 && merged_on(on, n).last().1 == on[n - 1].1,
    decreases n,
{
    if n > 0 {
        lemma_merged_on(on, n - 1, lo, hi);
        let rest = merged_on(on, n - 1);
        let (s, e) = on[n - 1];
        if n > 1 {
            assert(on[n - 2].1 + 1 <= on[n - 1].0);
        }
        let all = merged_on(on, n);
        assert forall|i: int, j: int| 0 <= i < j < all.len() implies (#[trigger] all[i]).1 + MERGE_UM <= (
        #[trigger] all[j]).0 by {
            if j < rest.len() {
                assert(rest[i].1 + MERGE_UM <= rest[j].0);
                assert(all[i] == rest[i]);
            } else {
                assert(all[i] == rest[i]);
                if i < rest.len() - 1 {
                    assert(rest[i].1 + MERGE_UM <= rest[rest.len() - 1].0);
                }
            }
        }
        assert forall|i: int| 0 <= i < all.len() implies (#[trigger] all[i]).0 <= all[i].1 by {
            if i < rest.len() - 1 {
                assert(all[i] == rest[i]);
            } else if rest.len() > 0 {
                assert(rest.last() == rest[rest.len() - 1]);
            }
        }
    }
}

proof fn lemma_long_enough(on: Seq<(i64, i64)>, n: int, lo: int, hi: int)
    requires
        0 <= n <= on.len(),
        apart(on, MERGE_UM as int),
        between(on, lo, hi),
    ensures
        apart(long_enough(on, n), MERGE_UM as int),
        between(long_enough(on, n), lo, hi),
        forall|i: int|
            0 <= i < long_enough(on, n).len() ==> (#[trigger] long_enough(on, n)[i]).1 - long_enough(on, n)[i].0
                >= MIN_CHORD_UM,
        long_enough(on, n).len() > 0 && n < on.len() ==> long_enough(on, n).last().1 + MERGE_UM <= on[n].0,
    decreases n,
{
    if n > 0 {
        lemma_long_enough(on, n - 1, lo, hi);
        let rest = long_enough(on, n - 1);
        let all = long_enough(on, n);
        if n < on.len() {
            assert(on[n - 1].1 + MERGE_UM <= on[n].0);
        }
        if on[n - 1].1 - on[n - 1].0 >= MIN_CHORD_UM {
            assert forall|i: int, j: int| 0 <= i < j < all.len() implies (#[trigger] all[i]).1 + MERGE_UM <= (
            #[trigger] all[j]).0 by {
                if j == rest.len() {
                    assert(all[i] == rest[i]);
                    if i < rest.len() - 1 {
                        assert(rest[i].1 + MERGE_UM <= rest[rest.len() - 1].0);
                    }
                }
            }
        } else if rest.len() > 0 && n < on.len() {
            assert(on[n - 1].0 <= on[n - 1].1);
        }
    }
}

/// Chords run forward, are long enough to have crossed a carriageway, stay
/// inside the extended line, and are separated by more than noise.
pub proof fn chords_are_apart(inside: Seq<bool>, total: int)
    requires
        0 < total <= MAX_LINE_UM,
        inside.len() == sample_count(total),
    ensures
        apart(chords_of(inside, total), MERGE_UM as int),
        between(chords_of(inside, total), -EXTEND_UM, total + EXTEND_UM),
        forall|i: int|
            0 <= i < chords_of(inside, total).len() ==> (#[trigger] chords_of(inside, total)[i]).1 - chords_of(
                inside,
                total,
            )[i].0 >= MIN_CHORD_UM,
{
    let on = on_intervals(inside, total);
    lemma_on_intervals(inside, total);
    lemma_merged_on(on, on.len() as int, -EXTEND_UM, total + EXTEND_UM);
    let merged = merged_on(on, on.len() as int);
    lemma_long_enough(merged, merged.len() as int, -EXTEND_UM, total + EXTEND_UM);
}

proof fn lemma_reached(chords: Seq<(i64, i64)>, n: int, total: int)
    requires
        0 <= n <= chords.len(),
        between(chords, -EXTEND_UM, total + EXTEND_UM),
        0 < total <= MAX_LINE_UM,
    ensures
        0 <= reached(chords, n) <= total + EXTEND_UM,
        forall|i: int| 0 <= i < n ==> (#[trigger] chords[i]).1 <= reached(chords, n),
        reached(chords, n) == 0 || exists|i: int| 0 <= i < n && (#[trigger] chords[i]).1 == reached(chords, n),
    decreases n,
{
    if n > 0 {
        lemma_reached(chords, n - 1, total);
    }
}

/// Whether two intervals share no more than an end.
pub open spec fn disjoint(a: (i64, i64), b: (i64, i64)) -> bool {
    a.1 <= b.0 || b.1 <= a.0
}

proof fn lemma_stubs_before(chords: Seq<(i64, i64)>, total: int, n: int)
    requires
        0 <= n <= chords.len(),
        apart(chords, 0),
        between(chords, -EXTEND_UM, total + EXTEND_UM),
        0 < total <= MAX_LINE_UM,
    ensures
        forall|i: int|
            0 <= i < stubs_before(chords, total, n).len() ==> {
                let s = #[trigger] stubs_before(chords, total, n)[i];
                &&& 0 <= s.0
                &&& s.0 + MIN_STUB_UM <= s.1 <= total
                &&& n > 0 && s.1 <= max(0, chords[n - 1].0 as int)
            },
        forall|i: int, j: int|
            0 <= i < stubs_before(chords, total, n).len() && 0 <= j < chords.len() ==> disjoint(
                #[trigger] stubs_before(chords, total, n)[i],
                #[trigger] chords[j],
            ),
    decreases n,
{
    if n > 0 {
        lemma_stubs_before(chords, total, n - 1);
        lemma_reached(chords, n - 1, total);
        let rest = stubs_before(chords, total, n - 1);
        let all = stubs_before(chords, total, n);
        let from = min(reached(chords, n - 1), total);
        let to = clamp(chords[n - 1].0 as int, 0, total);
        if n > 1 {
            assert(chords[n - 2].1 <= chords[n - 1].0);
            assert(chords[n - 2].0 <= chords[n - 2].1);
        }
        assert forall|i: int| 0 <= i < all.len() implies ({
            let s = #[trigger] all[i];
            &&& 0 <= s.0
            &&& s.0 + MIN_STUB_UM <= s.1 <= total
            &&& s.1 <= max(0, chords[n - 1].0 as int)
        }) by {
            if i < rest.len() {
                assert(all[i] == rest[i]);
            }
        }
        assert forall|i: int, j: int| 0 <= i < all.len() && 0 <= j < chords.len() implies disjoint(
            #[trigger] all[i],
            #[trigger] chords[j],
        ) by {
            if i < rest.len() {
                assert(all[i] == rest[i]);
            } else {
                if j < n - 1 {
                    assert(chords[j].1 <= reached(chords, n - 1));
                } else {
                    if j > n - 1 {
                        assert(chords[n - 1].1 <= chords[j].0);
                        assert(chords[n - 1].0 <= chords[n - 1].1);
                    }
                }
            }
        }
    }
}

/// Paint and pavement never overlap: every stub lies on the mapped line,
/// outside every chord.
pub proof fn stubs_lie_outside_every_chord(inside: Seq<bool>, total: int)
    requires
        0 < total <= MAX_LINE_UM,
        inside.len() == sample_count(total),
    ensures
        ({
            let chords = chords_of(inside, total);
            let stubs = stubs_of(chords, total);
            &&& forall|i: int|
                0 <= i < stubs.len() ==> 0 <= (#[trigger] stubs[i]).0 && stubs[i].0 + MIN_STUB_UM <= stubs[i].1
                    && stubs[i].1 <= total
            &&& forall|i: int, j: int|
                0 <= i < stubs.len() && 0 <= j < chords.len() ==> disjoint(#[trigger] stubs[i], #[trigger] chords[j])
        }),
{
    let chords = chords_of(inside, total);
    let n = chords.len() as int;
    chords_are_apart(inside, total);
    lemma_stubs_before(chords, total, n);
    lemma_reached(chords, n, total);
    let rest = stubs_before(chords, total, n);
    let stubs = stubs_of(chords, total);
    assert forall|i: int, j: int| 0 <= i < stubs.len() && 0 <= j < chords.len() implies disjoint(
        #[trigger] stubs[i],
        #[trigger] chords[j],
    ) by {
        if i < rest.len() {
            assert(stubs[i] == rest[i]);
        } else {
            assert(chords[j].1 <= reached(chords, n));
        }
    }
    assert forall|i: int| 0 <= i < stubs.len() implies 0 <= (#[trigger] stubs[i]).0 && stubs[i].0 + MIN_STUB_UM
        <= stubs[i].1 && stubs[i].1 <= total by {
        if i < rest.len() {
            assert(stubs[i] == rest[i]);
        }
    }
}

fn find_intervals(inside: &Vec<bool>, total: i64) -> (out: Vec<(i64, i64)>)
    requires
        0 < total <= MAX_LINE_UM,
        inside@.len() == sample_count(total as int),
    ensures
        out@ == on_intervals(inside@, total as int),
{
    let mut on: Vec<(i64, i64)> = Vec::new();
    let mut open: Option<i64> = None;
    let mut k: usize = 0;
    while k < inside.len()
        invariant
            k <= inside@.len(),
            0 < total <= MAX_LINE_UM,
            inside@.len() == sample_count(total as int),
            on@ == marched(inside@, k as int).on,
            open == marched(inside@, k as int).open,
        decreases inside@.len() - k,
    {
        let t: i64 = (k as i64) * STEP_UM - EXTEND_UM;
        match (inside[k], open) {
            (true, None) => {
                open = Some(t);
            },
            (false, Some(s)) => {
                on.push((s, t - STEP_UM));
                open = None;
            },
            _ => {},
        }
        k = k + 1;
    }
    if let Some(s) = open {
        on.push((s, total + EXTEND_UM));
    }
    on
}

fn merge_intervals(on: &Vec<(i64, i64)>, Ghost(lo): Ghost<int>, Ghost(hi): Ghost<int>) -> (out: Vec<(i64, i64)>)
    requires
        apart(on@, 1),
        between(on@, lo, hi),
    ensures
        out@ == merged_on(on@, on@.len() as int),
{
    let mut out: Vec<(i64, i64)> = Vec::new();
    let mut k: usize = 0;
    while k < on.len()
        invariant
            k <= on@.len(),
            out@ == merged_on(on@, k as int),
        decreases on@.len() - k,
    {
        let (s, e): (i64, i64) = on[k];
        let n: usize = out.len();
        if n > 0 && (s as i128 - out[n - 1].1 as i128) < MERGE_UM as i128 {
            let from: i64 = out[n - 1].0;
            out.set(n - 1, (from, e));
        } else {
            out.push((s, e));
        }
        k = k + 1;
    }
    out
}

fn keep_long(on: &Vec<(i64, i64)>) -> (out: Vec<(i64, i64)>)
    ensures
        out@ == long_enough(on@, on@.len() as int),
{
    let mut out: Vec<(i64, i64)> = Vec::new();
    let mut k: usize = 0;
    while k < on.len()
        invariant
            k <= on@.len(),
            out@ == long_enough(on@, k as int),
        decreases on@.len() - k,
    {
        if on[k].1 as i128 - on[k].0 as i128 >= MIN_CHORD_UM as i128 {
            out.push(on[k]);
        }
        k = k + 1;
    }
    out
}

fn stub(out: &mut Vec<(i64, i64)>, from: i64, to: i64)
    requires
        -0x4000_0000_0000_0000 < from < 0x4000_0000_0000_0000,
        -0x4000_0000_0000_0000 < to < 0x4000_0000_0000_0000,
    ensures
        final(out)@ == stub_pushed(old(out)@, from as int, to as int),
{
    if to - from >= MIN_STUB_UM {
        out.push((from, to));
    }
}

fn find_stubs(chords: &Vec<(i64, i64)>, total: i64) -> (out: Vec<(i64, i64)>)
    requires
        0 < total <= MAX_LINE_UM,
        between(chords@, -EXTEND_UM, total + EXTEND_UM),
    ensures
        out@ == stubs_of(chords@, total as int),
{
    let mut out: Vec<(i64, i64)> = Vec::new();
    let mut cursor: i64 = 0;
    let mut k: usize = 0;
    while k < chords.len()
        invariant
            k <= chords@.len(),
            0 < total <= MAX_LINE_UM,
            between(chords@, -EXTEND_UM, total + EXTEND_UM),
            cursor == reached(chords@, k as int),
            0 <= cursor <= total + EXTEND_UM,
            out@ == stubs_before(chords@, total as int, k as int),
        decreases chords@.len() - k,
    {
        let (s, e): (i64, i64) = chords[k];
        assert(chords@[k as int].1 <= total + EXTEND_UM);
        let from: i64 = if cursor < total { cursor } else { total };
        let to: i64 = if s < 0 { 0 } else if s > total { total } else { s };
        stub(&mut out, from, to);
        if e > cursor {
            cursor = e;
        }
        k = k + 1;
    }
    let from: i64 = if cursor > total { total } else { cursor };
    stub(&mut out, from, total);
    out
}

/// A crosswalk line as the map draws it, and what the carriageways near it
/// answer: the candidates its extended line could cross, and the asphalt under
/// each of its samples.
#[derive(Debug)]
pub struct CrossingLine {
    pub source: u64,
    pub crosswalk: bool,
    /// Mapped points.
    pub points: u64,
    /// Whether part of it is not on the ground.
    pub elevated: bool,
    pub total: i64,
    /// The level it is drawn at, where there is ground to read it from.
    pub anchor: Option<i64>,
    pub candidates: Vec<Candidate>,
    pub samples: Vec<Vec<AsphaltAt>>,
}

/// A kerb-to-kerb chord, by arc along its line.
#[derive(Clone, Copy, Debug, PartialEq, Eq, Structural)]
pub struct Chord {
    pub a: i64,
    pub b: i64,
}

/// A registered crosswalk: the chords its paint spans, and the streets it
/// crosses.
#[derive(Debug)]
pub struct CrossingPaint {
    /// Which line it is, and that line's source.
    pub line: usize,
    pub source: u64,
    pub chords: Vec<Chord>,
    pub hosts: Vec<Host>,
}

/// A kerb stub: a stretch of a mapped line outside every chord.
#[derive(Clone, Copy, Debug, PartialEq, Eq, Structural)]
pub struct Stub {
    pub line: usize,
    pub from: i64,
    pub to: i64,
}

/// Whether a line is an at-grade crosswalk with a length.
pub open spec fn registers(l: CrossingLine) -> bool {
    l.crosswalk && l.points >= 2 && !l.elevated && l.total > 0
}

pub open spec fn line_fits(l: CrossingLine) -> bool {
    &&& forall|i: int| 0 <= i < l.candidates@.len() ==> candidate_fits(#[trigger] l.candidates@[i])
    &&& l.total <= MAX_LINE_UM
    &&& registers(l) ==> l.samples@.len() == sample_count(l.total as int)
}

pub open spec fn line_hosts(l: CrossingLine) -> Seq<HostModel> {
    hosts_of(l.candidates@, l.anchor, l.candidates@.len() as int)
}

/// Where a line's samples lie on a street it crosses.
pub open spec fn line_inside(l: CrossingLine) -> Seq<bool> {
    Seq::new(l.samples@.len(), |k: int| on_crossed(line_hosts(l), l.samples@[k]@, l.anchor))
}

pub open spec fn line_chords(l: CrossingLine) -> Seq<(i64, i64)> {
    chords_of(line_inside(l), l.total as int)
}

/// Whether a line is painted: it crosses something and has a chord.
pub open spec fn is_painted(l: CrossingLine) -> bool {
    registers(l) && line_hosts(l).len() > 0 && line_chords(l).len() > 0
}

pub open spec fn as_chords(spans: Seq<(i64, i64)>) -> Seq<Chord> {
    Seq::new(spans.len(), |i: int| Chord { a: spans[i].0, b: spans[i].1 })
}

pub open spec fn as_stubs(spans: Seq<(i64, i64)>, line: int) -> Seq<Stub> {
    Seq::new(spans.len(), |i: int| Stub { line: line as usize, from: spans[i].0, to: spans[i].1 })
}

/// Which of the first `n` lines are painted, in order.
pub open spec fn painted_lines(lines: Seq<CrossingLine>, n: int) -> Seq<int>
    decreases n,
{
    if n <= 0 {
        Seq::empty()
    } else {
        let rest = painted_lines(lines, n - 1);
        if is_painted(lines[n - 1]) {
            rest.push(n - 1)
        } else {
            rest
        }
    }
}

/// The stubs of the first `n` lines.
pub open spec fn stubs_of_lines(lines: Seq<CrossingLine>, n: int) -> Seq<Stub>
    decreases n,
{
    if n <= 0 {
        Seq::empty()
    } else {
        let rest = stubs_of_lines(lines, n - 1);
        if is_painted(lines[n - 1]) {
            rest + as_stubs(stubs_of(line_chords(lines[n - 1]), lines[n - 1].total as int), n - 1)
        } else {
            rest
        }
    }
}

/// What the paint of a line holds.
pub open spec fn paints(p: CrossingPaint, lines: Seq<CrossingLine>, line: int) -> bool {
    &&& p.line == line
    &&& p.source == lines[line].source
    &&& p.chords@ == as_chords(line_chords(lines[line]))
    &&& host_models(p.hosts@) == line_hosts(lines[line])
}

fn samples_inside(l: &CrossingLine, hosts: &Vec<Host>) -> (out: Vec<bool>)
    requires
        host_models(hosts@) == line_hosts(*l),
    ensures
        out@ == line_inside(*l),
{
    let mut out: Vec<bool> = Vec::new();
    let mut k: usize = 0;
    while k < l.samples.len()
        invariant
            k <= l.samples@.len(),
            host_models(hosts@) == line_hosts(*l),
            out@ == line_inside(*l).take(k as int),
        decreases l.samples@.len() - k,
    {
        out.push(on_asphalt(hosts, &l.samples[k], l.anchor));
        k = k + 1;
        assert(out@ =~= line_inside(*l).take(k as int));
    }
    assert(line_inside(*l).take(k as int) =~= line_inside(*l));
    out
}

/// Registers every crosswalk line: the paint of each that crosses a street, and
/// the kerb stubs.
pub fn crossings(lines: &[CrossingLine]) -> (out: (Vec<CrossingPaint>, Vec<Stub>))
    requires
        forall|i: int| 0 <= i < lines@.len() ==> line_fits(#[trigger] lines@[i]),
    ensures
        out.0@.len() == painted_lines(lines@, lines@.len() as int).len(),
        forall|k: int|
            0 <= k < out.0@.len() ==> paints(
                #[trigger] out.0@[k],
                lines@,
                painted_lines(lines@, lines@.len() as int)[k],
            ),
        out.1@ == stubs_of_lines(lines@, lines@.len() as int),
{
    let mut marks: Vec<CrossingPaint> = Vec::new();
    let mut stubs: Vec<Stub> = Vec::new();
    let mut i: usize = 0;
    while i < lines.len()
        invariant
            i <= lines@.len(),
            forall|k: int| 0 <= k < lines@.len() ==> line_fits(#[trigger] lines@[k]),
            marks@.len() == painted_lines(lines@, i as int).len(),
            forall|k: int|
                0 <= k < marks@.len() ==> paints(#[trigger] marks@[k], lines@, painted_lines(lines@, i as int)[k]),
            stubs@ == stubs_of_lines(lines@, i as int),
        decreases lines@.len() - i,
    {
        let l: &CrossingLine = &lines[i];
        assert(line_fits(lines@[i as int]));
        if l.crosswalk && l.points >= 2 && !l.elevated && l.total > 0 {
            let hosts: Vec<Host> = crossed_hosts(&l.candidates, l.anchor);
            assert(hosts@.len() == host_models(hosts@).len());
            if hosts.len() > 0 {
                let inside: Vec<bool> = samples_inside(l, &hosts);
                let on: Vec<(i64, i64)> = find_intervals(&inside, l.total);
                proof {
                    lemma_on_intervals(inside@, l.total as int);
                    chords_are_apart(inside@, l.total as int);
                }
                let merged: Vec<(i64, i64)> = merge_intervals(&on, Ghost(-EXTEND_UM as int), Ghost(l.total + EXTEND_UM));
                let spans: Vec<(i64, i64)> = keep_long(&merged);
                assert(spans@ == line_chords(*l));
                if spans.len() > 0 {
                    let outside: Vec<(i64, i64)> = find_stubs(&spans, l.total);
                    let ghost before = stubs@;
                    let mut k: usize = 0;
                    while k < outside.len()
                        invariant
                            k <= outside@.len(),
                            stubs@ == before + as_stubs(outside@, i as int).take(k as int),
                        decreases outside@.len() - k,
                    {
                        stubs.push(Stub { line: i, from: outside[k].0, to: outside[k].1 });
                        k = k + 1;
                        assert(stubs@ =~= before + as_stubs(outside@, i as int).take(k as int));
                    }
                    assert(as_stubs(outside@, i as int).take(k as int) =~= as_stubs(outside@, i as int));
                    let mut chords: Vec<Chord> = Vec::new();
                    let mut c: usize = 0;
                    while c < spans.len()
                        invariant
                            c <= spans@.len(),
                            chords@ == as_chords(spans@).take(c as int),
                        decreases spans@.len() - c,
                    {
                        chords.push(Chord { a: spans[c].0, b: spans[c].1 });
                        c = c + 1;
                        assert(chords@ =~= as_chords(spans@).take(c as int));
                    }
                    assert(as_chords(spans@).take(c as int) =~= as_chords(spans@));
                    marks.push(CrossingPaint { line: i, source: l.source, chords, hosts });
                    assert(paints(marks@[marks@.len() - 1], lines@, i as int));
                }
            }
        }
        i = i + 1;
    }
    (marks, stubs)
}

/// A registered crossing point as seen from a chord's middle: how far it is,
/// and whether the street runs anywhere there.
#[derive(Clone, Copy, Debug, PartialEq, Eq, Structural)]
pub struct TangentAt {
    pub distance: u64,
    pub runs: bool,
}

/// The nearest of the first `n` crossing points that has a direction, the
/// earliest on a tie.
pub open spec fn nearest_running(seen: Seq<TangentAt>, n: int) -> Option<int>
    decreases n,
{
    if n <= 0 {
        None
    } else {
        let best = nearest_running(seen, n - 1);
        if seen[n - 1].runs && (best is None || seen[n - 1].distance < seen[best->0].distance) {
            Some(n - 1)
        } else {
            best
        }
    }
}

/// The crossing point whose street gives a chord its traffic direction.
pub fn traffic_at(seen: &[TangentAt]) -> (out: Option<usize>)
    ensures
        match nearest_running(seen@, seen@.len() as int) {
            Some(k) => out is Some && out->0 == k,
            None => out is None,
        },
        out is Some ==> out->0 < seen@.len(),
{
    let mut out: Option<usize> = None;
    let mut k: usize = 0;
    while k < seen.len()
        invariant
            k <= seen@.len(),
            match nearest_running(seen@, k as int) {
                Some(b) => out is Some && out->0 == b && b < k,
                None => out is None,
            },
        decreases seen@.len() - k,
    {
        let nearer: bool = match out {
            None => true,
            Some(b) => seen[k].distance < seen[b].distance,
        };
        if seen[k].runs && nearer {
            out = Some(k);
        }
        k = k + 1;
    }
    out
}

} // verus!
