//! Which streets a crossing crosses, and what of its line is paint and what is
//! pavement.
use vstd::prelude::*;

use crate::synth::walkway::crossing::{
    apart, as_stubs, between, cross, crosses, crossing, edge_covers, hosts_of, host_slot, incident, is_painted,
    lemma_host_slot, lemma_meets_at, lemma_reached, line_chords, line_hosts, long_enough, marched, meets_at, merged_on,
    near_station, nearest_running, norm, off_line, on_crossed, on_host, on_intervals, painted_lines, reached, sample_at,
    sample_count, side, stubs_before, stubs_of, stubs_of_lines, AsphaltAt, Candidate, CrossingLine, HostModel, Spot,
    Stub, TangentAt, EXTEND_UM, MAX_LINE_UM,
};

verus! {

// ---------------------------------------------------------------------------
// Where two segments meet.
// ---------------------------------------------------------------------------

/// Two segments that cross meet strictly inside the first, where it is on the
/// line of the second.
pub proof fn a_crossing_is_on_both_lines(a0: Spot, a1: Spot, b0: Spot, b1: Spot)
    requires
        crossing(a0, a1, b0, b1),
    ensures
        ({
            let (n, d) = meets_at(a0, a1, b0, b1);
            &&& 0 < n < d
            &&& ((b1.x - b0.x) * (a0.y - b0.y) - (b1.y - b0.y) * (a0.x - b0.x)) * (d - n) + ((b1.x - b0.x) * (a1.y
                - b0.y) - (b1.y - b0.y) * (a1.x - b0.x)) * n == 0
        }),
{
    lemma_meets_at(a0, a1, b0, b1);
    let (n, d) = meets_at(a0, a1, b0, b1);
    let dd = cross(a1.x - a0.x, a1.y - a0.y, b1.x - b0.x, b1.y - b0.y);
    let nn = cross(b0.x - a0.x, b0.y - a0.y, b1.x - b0.x, b1.y - b0.y);
    let (a0x, a0y, a1x, a1y) = (a0.x as int, a0.y as int, a1.x as int, a1.y as int);
    let (b0x, b0y, b1x, b1y) = (b0.x as int, b0.y as int, b1.x as int, b1.y as int);
    let s0 = side(b0, b1, a0);
    let s1 = side(b0, b1, a1);
    assert((b1x - b0x) * (a0y - b0y) - (b1y - b0y) * (a0x - b0x) == (b0x - a0x) * (b1y - b0y) - (b0y - a0y) * (b1x
        - b0x)) by (nonlinear_arith);
    assert((b1x - b0x) * (a1y - b0y) - (b1y - b0y) * (a1x - b0x) == ((b0x - a0x) * (b1y - b0y) - (b0y - a0y) * (b1x
        - b0x)) - ((a1x - a0x) * (b1y - b0y) - (a1y - a0y) * (b1x - b0x))) by (nonlinear_arith);
    assert(s0 == nn);
    assert(s1 == nn - dd);
    if dd < 0 {
        assert(s0 == -n && s1 == d - n);
        assert((-n) * (d - n) + (d - n) * n == 0) by (nonlinear_arith);
    } else {
        assert(s0 == n && s1 == n - d);
        assert(n * (d - n) + (n - d) * n == 0) by (nonlinear_arith);
    }
}

/// Two lines that run the same way do not meet at a believable incidence; two
/// at right angles do.
pub proof fn square_crossings_are_believed(w0: Spot, w1: Spot, a: Spot, b: Spot)
    ensures
        (w1.x - w0.x) * (b.y - a.y) == (w1.y - w0.y) * (b.x - a.x) ==> !incident(w0, w1, a, b),
        w0 != w1 && a != b && (w1.x - w0.x) * (b.x - a.x) + (w1.y - w0.y) * (b.y - a.y) == 0 ==> incident(w0, w1, a, b),
{
    let (ux, uy) = (w1.x - w0.x, w1.y - w0.y);
    let (vx, vy) = (b.x - a.x, b.y - a.y);
    let c = cross(ux, uy, vx, vy);
    let p = norm(ux, uy);
    let q = norm(vx, vy);
    assert(p >= 0) by (nonlinear_arith)
        requires
            p == ux * ux + uy * uy,
    ;
    assert(q >= 0) by (nonlinear_arith)
        requires
            q == vx * vx + vy * vy,
    ;
    if p > 0 && q > 0 {
        assert(p * q > 0) by (nonlinear_arith)
            requires
                p > 0,
                q > 0,
        ;
    }
    if (w1.x - w0.x) * (b.x - a.x) + (w1.y - w0.y) * (b.y - a.y) == 0 {
        let dot = ux * vx + uy * vy;
        lemma_sine_and_cosine(ux, uy, vx, vy);
        assert(dot * dot == 0);
        if w0 != w1 && a != b {
            assert(p > 0) by (nonlinear_arith)
                requires
                    p == ux * ux + uy * uy,
                    ux != 0 || uy != 0,
            ;
            assert(q > 0) by (nonlinear_arith)
                requires
                    q == vx * vx + vy * vy,
                    vx != 0 || vy != 0,
            ;
        }
    }
}

proof fn lemma_sine_and_cosine(ux: int, uy: int, vx: int, vy: int)
    ensures
        cross(ux, uy, vx, vy) * cross(ux, uy, vx, vy) + (ux * vx + uy * vy) * (ux * vx + uy * vy) == norm(ux, uy) * norm(
            vx,
            vy,
        ),
{
    let (a, b, c, d) = (ux * vy, uy * vx, ux * vx, uy * vy);
    let (p, q, r, s) = (ux * ux, uy * uy, vx * vx, vy * vy);
    assert(a * b == c * d) by (nonlinear_arith)
        requires
            a == ux * vy,
            b == uy * vx,
            c == ux * vx,
            d == uy * vy,
    ;
    assert(a * a == p * s) by (nonlinear_arith)
        requires
            a == ux * vy,
            p == ux * ux,
            s == vy * vy,
    ;
    assert(b * b == q * r) by (nonlinear_arith)
        requires
            b == uy * vx,
            q == uy * uy,
            r == vx * vx,
    ;
    assert(c * c == p * r) by (nonlinear_arith)
        requires
            c == ux * vx,
            p == ux * ux,
            r == vx * vx,
    ;
    assert(d * d == q * s) by (nonlinear_arith)
        requires
            d == uy * vy,
            q == uy * uy,
            s == vy * vy,
    ;
    assert((a - b) * (a - b) == a * a - 2 * (a * b) + b * b) by (nonlinear_arith);
    assert((c + d) * (c + d) == c * c + 2 * (c * d) + d * d) by (nonlinear_arith);
    assert((p + q) * (r + s) == p * r + p * s + q * r + q * s) by (nonlinear_arith);
}

/// The stations off a street's line are kept, in order, and only those.
pub proof fn every_station_off_the_line_is_kept(stations: Seq<Spot>, a: Spot, b: Spot, n: int)
    requires
        0 <= n <= stations.len() <= usize::MAX,
    ensures
        forall|i: int|
            0 <= i < n ==> (off_line(stations, a, b, n).contains(i as usize) <==> (b.x - a.x) * ((#[trigger] stations[i]).y
                - a.y) != (b.y - a.y) * (stations[i].x - a.x)),
        forall|k: int| 0 <= k < off_line(stations, a, b, n).len() ==> (#[trigger] off_line(stations, a, b, n)[k]) < n,
    decreases n,
{
    if n > 0 {
        every_station_off_the_line_is_kept(stations, a, b, n - 1);
        let rest = off_line(stations, a, b, n - 1);
        let all = off_line(stations, a, b, n);
        if side(a, b, stations[n - 1]) != 0 {
            assert(all[rest.len() as int] == n - 1);
        }
        assert forall|k: int| 0 <= k < all.len() implies (#[trigger] all[k]) < n by {
            if k < rest.len() {
                assert(all[k] == rest[k]);
            }
        }
        assert forall|i: int| 0 <= i < n implies (all.contains(i as usize) <==> (b.x - a.x) * ((#[trigger] stations[i]).y
            - a.y) != (b.y - a.y) * (stations[i].x - a.x)) by {
            if rest.contains(i as usize) {
                let k = choose|k: int| 0 <= k < rest.len() && rest[k] == i as usize;
                assert(all[k] == rest[k]);
            }
            if all.contains(i as usize) {
                let k = choose|k: int| 0 <= k < all.len() && all[k] == i as usize;
                if k < rest.len() {
                    assert(rest[k] == i as usize);
                }
            }
        }
    }
}

// ---------------------------------------------------------------------------
// Hosts.
// ---------------------------------------------------------------------------

/// Whether a candidate is crossed: the two properly cross, at a believable
/// incidence, and where both heights are known they lie within three metres.
pub open spec fn is_crossed(c: Candidate, anchor: Option<i64>) -> bool {
    &&& crossing(c.w0, c.w1, c.a, c.b)
    &&& incident(c.w0, c.w1, c.a, c.b)
    &&& c.height matches Some(h) ==> anchor matches Some(a) ==> -3_000_000 <= h - a <= 3_000_000
}

/// Every street a candidate crosses is a host, crossed at that arc.
pub proof fn every_street_crossed_is_a_host(candidates: Seq<Candidate>, anchor: Option<i64>, n: int, i: int)
    requires
        0 <= i < n <= candidates.len(),
        is_crossed(candidates[i], anchor),
    ensures
        exists|k: int|
            {
                let h = #[trigger] hosts_of(candidates, anchor, n)[k];
                &&& 0 <= k < hosts_of(candidates, anchor, n).len()
                &&& h.corridor == candidates[i].corridor
                &&& h.arcs.contains(candidates[i].arc)
            },
    decreases n,
{
    let rest = hosts_of(candidates, anchor, n - 1);
    let all = hosts_of(candidates, anchor, n);
    let c = candidates[n - 1];
    assert(crosses(candidates[i], anchor));
    let slot = host_slot(rest, c.corridor, rest.len() as int);
    lemma_host_slot(rest, c.corridor, rest.len() as int);
    if i < n - 1 {
        every_street_crossed_is_a_host(candidates, anchor, n - 1, i);
        let k = choose|k: int|
            {
                let h = #[trigger] rest[k];
                &&& 0 <= k < rest.len()
                &&& h.corridor == candidates[i].corridor
                &&& h.arcs.contains(candidates[i].arc)
            };
        let j = choose|j: int| 0 <= j < rest[k].arcs.len() && rest[k].arcs[j] == candidates[i].arc;
        assert(all[k].arcs[j] == candidates[i].arc);
        assert(all[k].corridor == candidates[i].corridor);
    } else {
        match slot {
            Some(k) => {
                let j = rest[k].arcs.len() as int;
                assert(all[k].arcs[j] == c.arc);
                assert(all[k].corridor == c.corridor);
            },
            None => {
                let k = rest.len() as int;
                assert(all[k].arcs[0] == c.arc);
                assert(all[k].corridor == c.corridor);
            },
        }
    }
}

/// No street is a host twice.
pub proof fn no_street_is_a_host_twice(candidates: Seq<Candidate>, anchor: Option<i64>, n: int)
    requires
        0 <= n <= candidates.len(),
    ensures
        forall|j: int, k: int|
            0 <= j < k < hosts_of(candidates, anchor, n).len() ==> (#[trigger] hosts_of(candidates, anchor, n)[j]).corridor
                != (#[trigger] hosts_of(candidates, anchor, n)[k]).corridor,
    decreases n,
{
    if n > 0 {
        no_street_is_a_host_twice(candidates, anchor, n - 1);
        let rest = hosts_of(candidates, anchor, n - 1);
        let c = candidates[n - 1];
        lemma_host_slot(rest, c.corridor, rest.len() as int);
        let all = hosts_of(candidates, anchor, n);
        assert forall|j: int, k: int| 0 <= j < k < all.len() implies (#[trigger] all[j]).corridor != (
        #[trigger] all[k]).corridor by {
            if j < rest.len() && k < rest.len() {
                assert(rest[j].corridor != rest[k].corridor);
            }
        }
    } else {
        assert(hosts_of(candidates, anchor, n).len() == 0);
    }
}

/// A point lies on a crossed street where a piece of it, within twenty-five
/// metres along it of where it is crossed, is no further away than half its
/// width, at the crossing's level.
pub proof fn a_point_lies_on_the_street_around_it(hosts: Seq<HostModel>, seen: Seq<AsphaltAt>, anchor: Option<i64>, h: int, s: int, e: int, k: int)
    requires
        0 <= h < hosts.len(),
        0 <= s < seen.len(),
        0 <= e < seen[s].edges@.len(),
        0 <= k < hosts[h].arcs.len(),
        hosts[h].corridor == seen[s].corridor,
        seen[s].half matches Some(w) && seen[s].edges@[e].distance <= w,
        seen[s].edges@[e].arc0 - 25_000_000 <= hosts[h].arcs[k] <= seen[s].edges@[e].arc1 + 25_000_000,
        seen[s].height matches Some(y) ==> anchor matches Some(a) ==> -3_000_000 <= y - a <= 3_000_000,
    ensures
        on_crossed(hosts, seen, anchor),
{
    let x = seen[s].edges@[e];
    assert(x.arc0 <= hosts[h].arcs[k] + 25_000_000 && x.arc1 >= hosts[h].arcs[k] - 25_000_000);
    assert(near_station(x, hosts[h].arcs));
    assert(edge_covers(seen[s].edges@[e], hosts[h].arcs, seen[s].half->0));
    assert(on_host(hosts[h].arcs, seen[s], anchor));
}

/// Elsewhere it lies on none.
pub proof fn elsewhere_a_point_lies_on_no_street(hosts: Seq<HostModel>, seen: Seq<AsphaltAt>, anchor: Option<i64>)
    requires
        on_crossed(hosts, seen, anchor),
    ensures
        exists|h: int, s: int, e: int, k: int|
            {
                &&& 0 <= h < hosts.len()
                &&& 0 <= s < seen.len()
                &&& 0 <= e < seen[s].edges@.len()
                &&& 0 <= k < hosts[h].arcs.len()
                &&& hosts[h].corridor == seen[s].corridor
                &&& seen[s].half is Some
                &&& (#[trigger] seen[s].edges@[e]).distance <= seen[s].half->0
                &&& seen[s].edges@[e].arc0 - 25_000_000 <= #[trigger] hosts[h].arcs[k] <= seen[s].edges@[e].arc1
                    + 25_000_000
                &&& seen[s].height matches Some(y) ==> anchor matches Some(a) ==> -3_000_000 <= y - a <= 3_000_000
            },
{
    let (h, s) = choose|h: int, s: int|
        0 <= h < hosts.len() && 0 <= s < seen.len() && (#[trigger] hosts[h]).corridor == (#[trigger] seen[s]).corridor
            && on_host(hosts[h].arcs, seen[s], anchor);
    let e = choose|e: int|
        0 <= e < seen[s].edges@.len() && edge_covers(#[trigger] seen[s].edges@[e], hosts[h].arcs, seen[s].half->0);
    let arcs = hosts[h].arcs;
    let x = seen[s].edges@[e];
    let k = choose|k: int|
        0 <= k < arcs.len() && x.arc0 <= (#[trigger] arcs[k]) + 25_000_000 && x.arc1 >= arcs[k] - 25_000_000;
    assert(seen[s].edges@[e].arc0 - 25_000_000 <= hosts[h].arcs[k] <= seen[s].edges@[e].arc1 + 25_000_000);
}

// ---------------------------------------------------------------------------
// Paint.
// ---------------------------------------------------------------------------

proof fn lemma_march(inside: Seq<bool>, n: int)
    requires
        0 <= n <= inside.len(),
        sample_at(n) <= i64::MAX,
    ensures
        ({
            let m = marched(inside, n);
            &&& m.open is Some <==> n > 0 && inside[n - 1]
            &&& m.open matches Some(s) ==> -8_000_000 <= s <= sample_at(n - 1)
            &&& forall|k: int|
                0 <= k < n && #[trigger] inside[k] ==> in_some(m.on, sample_at(k)) || (m.open matches Some(s) && s
                    <= sample_at(k))
            &&& forall|k: int|
                0 <= k < n && in_some(m.on, sample_at(k)) ==> #[trigger] inside[k]
            &&& forall|k: int| 0 <= k < n && (m.open matches Some(s) && s <= sample_at(k)) ==> #[trigger] inside[k]
        }),
    decreases n,
{
    if n > 0 {
        lemma_march(inside, n - 1);
        let was = marched(inside, n - 1);
        let m = marched(inside, n);
        assert forall|k: int| 0 <= k < n && #[trigger] inside[k] implies in_some(m.on, sample_at(k)) || (
        m.open matches Some(s) && s <= sample_at(k)) by {
            if k < n - 1 {
                if in_some(was.on, sample_at(k)) {
                    let x = choose|x: int|
                        0 <= x < was.on.len() && (#[trigger] was.on[x]).0 <= sample_at(k) <= was.on[x].1;
                    assert(m.on[x] == was.on[x]);
                } else if !inside[n - 1] {
                    let x = was.on.len() as int;
                    assert(m.on[x] == (was.open->0, sample_at(n - 2) as i64));
                    assert(m.on[x].0 <= sample_at(k) <= m.on[x].1);
                }
            }
        }
        assert forall|k: int| 0 <= k < n && in_some(m.on, sample_at(k)) implies #[trigger] inside[k] by {
            let x = choose|x: int| 0 <= x < m.on.len() && (#[trigger] m.on[x]).0 <= sample_at(k) <= m.on[x].1;
            if x < was.on.len() {
                assert(m.on[x] == was.on[x]);
                if k == n - 1 {
                    lemma_before(inside, n - 1);
                    assert(was.on[x].1 <= sample_at(n - 2));
                } else {
                    assert(in_some(was.on, sample_at(k)));
                }
            } else {
                assert(m.on[x] == (was.open->0, sample_at(n - 2) as i64));
                assert(k <= n - 2);
            }
        }
    }
}

proof fn lemma_before(inside: Seq<bool>, n: int)
    requires
        0 <= n <= inside.len(),
        sample_at(n) <= i64::MAX,
    ensures
        forall|x: int| 0 <= x < marched(inside, n).on.len() ==> (#[trigger] marched(inside, n).on[x]).1 <= sample_at(n - 1),
    decreases n,
{
    if n > 0 {
        lemma_before(inside, n - 1);
        let was = marched(inside, n - 1);
        let m = marched(inside, n);
        assert forall|x: int| 0 <= x < m.on.len() implies (#[trigger] m.on[x]).1 <= sample_at(n - 1) by {
            if x < was.on.len() {
                assert(m.on[x] == was.on[x]);
            }
        }
    }
}

/// Whether an arc lies in one of the intervals.
pub open spec fn in_some(on: Seq<(i64, i64)>, x: int) -> bool {
    exists|k: int| 0 <= k < on.len() && (#[trigger] on[k]).0 <= x <= on[k].1
}

/// A sample of a line, taken every quarter metre from eight metres before it,
/// lies on asphalt where and only where an interval holds it.
pub proof fn an_interval_holds_the_samples_on_asphalt(inside: Seq<bool>, total: int, k: int)
    requires
        0 < total <= MAX_LINE_UM,
        inside.len() == sample_count(total),
        0 <= k < inside.len(),
    ensures
        inside[k] <==> in_some(on_intervals(inside, total), 250_000 * k - 8_000_000),
        250_000 * (inside.len() - 1) - 8_000_000 <= total + 8_000_000 < 250_000 * inside.len() - 8_000_000,
{
    let n = inside.len() as int;
    let on = on_intervals(inside, total);
    let m = marched(inside, n);
    assert(sample_at(k) == 250_000 * k - 8_000_000);
    lemma_march(inside, n);
    lemma_before(inside, n);
    assert(inside[k] == inside[k]);
    if in_some(m.on, sample_at(k)) {
        let x = choose|x: int| 0 <= x < m.on.len() && (#[trigger] m.on[x]).0 <= sample_at(k) <= m.on[x].1;
        assert(on[x] == m.on[x]);
    }
    if m.open is Some {
        let x = m.on.len() as int;
        assert(on[x] == (m.open->0, (total + 8_000_000) as i64));
        if m.open->0 <= sample_at(k) {
            assert(on[x].0 <= sample_at(k) <= on[x].1);
        }
    }
    if in_some(on, sample_at(k)) {
        let x = choose|x: int| 0 <= x < on.len() && (#[trigger] on[x]).0 <= sample_at(k) <= on[x].1;
        if x < m.on.len() {
            assert(m.on[x] == on[x]);
            assert(in_some(m.on, sample_at(k)));
        }
    }
}

/// Merging loses no interval: each lies in a merged one, which begins where one
/// begins and ends where one ends; and two less than a metre apart are one.
pub proof fn merging_loses_no_interval(on: Seq<(i64, i64)>, n: int, i: int)
    requires
        0 <= i < n <= on.len(),
        apart(on, 1),
    ensures
        exists|k: int|
            {
                let m = #[trigger] merged_on(on, n)[k];
                &&& 0 <= k < merged_on(on, n).len()
                &&& m.0 <= on[i].0
                &&& on[i].1 <= m.1
            },
        i + 1 < n && on[i + 1].0 - on[i].1 < 1_000_000 ==> exists|k: int|
            {
                let m = #[trigger] merged_on(on, n)[k];
                &&& 0 <= k < merged_on(on, n).len()
                &&& m.0 <= on[i].0
                &&& on[i + 1].1 <= m.1
            },
    decreases n,
{
    let rest = merged_on(on, n - 1);
    let all = merged_on(on, n);
    lemma_merged_end(on, n);
    if n - 1 > 0 {
        lemma_merged_end(on, n - 1);
    }
    let joins = rest.len() > 0 && on[n - 1].0 - rest.last().1 < 1_000_000;
    if i < n - 1 {
        merging_loses_no_interval(on, n - 1, i);
        let k = choose|k: int|
            {
                let m = #[trigger] rest[k];
                &&& 0 <= k < rest.len()
                &&& m.0 <= on[i].0
                &&& on[i].1 <= m.1
            };
        assert(on[n - 2].1 + 1 <= on[n - 1].0);
        assert(on[n - 1].0 <= on[n - 1].1);
        assert(all[k].0 <= on[i].0 && on[i].1 <= all[k].1);
        if i + 1 < n && on[i + 1].0 - on[i].1 < 1_000_000 {
            if i + 1 == n - 1 {
                assert(joins);
                let last = rest.len() - 1;
                assert(rest[last].0 <= on[i].0) by {
                    if k != last {
                        lemma_merged_apart(on, n - 1);
                        assert(rest[k].1 < rest[last].0);
                        assert(rest[last].1 == on[i].1);
                        assert(rest[last].0 <= rest[last].1);
                        assert(false);
                    }
                }
                assert(all[last].0 <= on[i].0 && on[i + 1].1 <= all[last].1);
            } else {
                let j = choose|k: int|
                    {
                        let m = #[trigger] rest[k];
                        &&& 0 <= k < rest.len()
                        &&& m.0 <= on[i].0
                        &&& on[i + 1].1 <= m.1
                    };
                assert(all[j].0 <= on[i].0 && on[i + 1].1 <= all[j].1);
            }
        }
    } else {
        let k = all.len() - 1;
        if joins {
            lemma_merged_apart(on, n - 1);
            assert(rest[k].0 <= rest[k].1);
            assert(on[n - 2].1 + 1 <= on[n - 1].0);
        }
        assert(all[k].0 <= on[i].0 && on[i].1 <= all[k].1);
    }
}

proof fn lemma_merged_end(on: Seq<(i64, i64)>, n: int)
    requires
        0 < n <= on.len(),
    ensures
        merged_on(on, n).len() > 0,
        merged_on(on, n).last().1 == on[n - 1].1,
{
}

proof fn lemma_merged_apart(on: Seq<(i64, i64)>, n: int)
    requires
        0 <= n <= on.len(),
        apart(on, 1),
    ensures
        forall|k: int| 0 <= k < merged_on(on, n).len() ==> (#[trigger] merged_on(on, n)[k]).0 <= merged_on(on, n)[k].1,
        forall|j: int, k: int|
            0 <= j < k < merged_on(on, n).len() ==> (#[trigger] merged_on(on, n)[j]).1 < (#[trigger] merged_on(on, n)[k]).0,
    decreases n,
{
    if n > 0 {
        lemma_merged_apart(on, n - 1);
        let rest = merged_on(on, n - 1);
        let all = merged_on(on, n);
        assert(on[n - 1].0 <= on[n - 1].1);
        if n > 1 {
            lemma_merged_end(on, n - 1);
            assert(on[n - 2].1 + 1 <= on[n - 1].0);
        }
        let m = rest.len() as int;
        assert forall|k: int| 0 <= k < all.len() implies (#[trigger] all[k]).0 <= all[k].1 by {
            if k < m {
                assert(rest[k].0 <= rest[k].1);
            }
        }
        assert forall|j: int, k: int| 0 <= j < k < all.len() implies (#[trigger] all[j]).1 < (#[trigger] all[k]).0 by {
            if k < m {
                assert(rest[j].1 < rest[k].0);
            } else {
                if j < m - 1 {
                    assert(rest[j].1 < rest[m - 1].0);
                    assert(rest[m - 1].0 <= rest[m - 1].1);
                }
            }
        }
    }
}

/// Every interval a metre and a half long is kept, and no shorter one is.
pub proof fn grazes_are_left_out(on: Seq<(i64, i64)>, n: int)
    requires
        0 <= n <= on.len(),
    ensures
        forall|i: int| 0 <= i < n && (#[trigger] on[i]).1 - on[i].0 >= 1_500_000 ==> long_enough(on, n).contains(on[i]),
        forall|k: int|
            0 <= k < long_enough(on, n).len() ==> (#[trigger] long_enough(on, n)[k]).1 - long_enough(on, n)[k].0
                >= 1_500_000 && on.contains(long_enough(on, n)[k]),
    decreases n,
{
    if n > 0 {
        grazes_are_left_out(on, n - 1);
        let rest = long_enough(on, n - 1);
        let all = long_enough(on, n);
        if on[n - 1].1 - on[n - 1].0 >= 1_500_000 {
            assert(all[rest.len() as int] == on[n - 1]);
        }
        assert forall|i: int| 0 <= i < n && (#[trigger] on[i]).1 - on[i].0 >= 1_500_000 implies all.contains(on[i]) by {
            if i < n - 1 {
                assert(rest.contains(on[i]));
                let k = choose|k: int| 0 <= k < rest.len() && rest[k] == on[i];
                assert(all[k] == on[i]);
            }
        }
        assert forall|k: int| 0 <= k < all.len() implies (#[trigger] all[k]).1 - all[k].0 >= 1_500_000 && on.contains(
            all[k],
        ) by {
            if k < rest.len() {
                assert(all[k] == rest[k]);
            } else {
                assert(on[n - 1] == all[k]);
            }
        }
    }
}

/// A gap too short for a stub.
pub open spec fn too_short(lo: int, hi: int, x: int) -> bool {
    lo <= x <= hi < lo + 400_000
}

/// Whether an arc of a line is paint, pavement, or in a gap too short for a
/// stub.
pub open spec fn drawn_or_short(chords: Seq<(i64, i64)>, stubs: Seq<(i64, i64)>, x: int) -> bool {
    ||| in_some(chords, x)
    ||| in_some(stubs, x)
    ||| exists|lo: int, hi: int| #[trigger] too_short(lo, hi, x)
}

proof fn lemma_stubs_before_cover(chords: Seq<(i64, i64)>, total: int, n: int, x: int)
    requires
        0 <= n <= chords.len(),
        0 < total <= MAX_LINE_UM,
        between(chords, -EXTEND_UM, total + EXTEND_UM),
        0 <= x <= total,
        x < reached(chords, n),
    ensures
        drawn_or_short(chords, stubs_before(chords, total, n), x),
    decreases n,
{
    if n > 0 {
        let rest = stubs_before(chords, total, n - 1);
        let all = stubs_before(chords, total, n);
        let cursor = reached(chords, n - 1);
        lemma_reached(chords, n - 1, total);
        if x < cursor {
            lemma_stubs_before_cover(chords, total, n - 1, x);
            if in_some(rest, x) {
                let k = choose|k: int| 0 <= k < rest.len() && (#[trigger] rest[k]).0 <= x <= rest[k].1;
                assert(all[k] == rest[k]);
            }
        } else {
            let c = chords[n - 1];
            assert(x < c.1);
            if c.0 <= x {
                assert(in_some(chords, x));
            } else {
                let hi = if c.0 < total {
                    c.0 as int
                } else {
                    total
                };
                if hi - cursor < 400_000 {
                    assert(too_short(cursor, hi, x));
                } else {
                    assert(all[rest.len() as int] == (cursor as i64, hi as i64));
                    assert(in_some(all, x));
                }
            }
        }
    }
}

/// Nothing of a mapped line is lost: every arc of it is paint, pavement, or in a
/// gap too short for a stub.
pub proof fn a_line_is_paint_or_pavement(chords: Seq<(i64, i64)>, total: int, x: int)
    requires
        0 < total <= MAX_LINE_UM,
        between(chords, -EXTEND_UM, total + EXTEND_UM),
        0 <= x <= total,
    ensures
        drawn_or_short(chords, stubs_of(chords, total), x),
{
    let n = chords.len() as int;
    let rest = stubs_before(chords, total, n);
    let all = stubs_of(chords, total);
    lemma_reached(chords, n, total);
    if x < reached(chords, n) {
        lemma_stubs_before_cover(chords, total, n, x);
        if in_some(rest, x) {
            let k = choose|k: int| 0 <= k < rest.len() && (#[trigger] rest[k]).0 <= x <= rest[k].1;
            assert(all[k] == rest[k]);
        }
    } else {
        let cursor = reached(chords, n);
        if total - cursor < 400_000 {
            assert(too_short(cursor, total, x));
        } else {
            assert(all[rest.len() as int] == (cursor as i64, total as i64));
            assert(in_some(all, x));
        }
    }
}

/// The lines painted are the crosswalks on the ground that have a length, cross
/// a street and have a chord, in order.
pub proof fn every_registered_crosswalk_is_painted(lines: Seq<CrossingLine>, n: int)
    requires
        0 <= n <= lines.len(),
    ensures
        forall|i: int|
            0 <= i < n ==> (painted_lines(lines, n).contains(i) <==> (#[trigger] lines[i]).crosswalk && lines[i].points >= 2
                && !lines[i].elevated && lines[i].total > 0 && line_hosts(lines[i]).len() > 0 && line_chords(lines[i]).len()
                > 0),
        forall|k: int| 0 <= k < painted_lines(lines, n).len() ==> 0 <= #[trigger] painted_lines(lines, n)[k] < n,
        forall|j: int, k: int|
            0 <= j < k < painted_lines(lines, n).len() ==> (#[trigger] painted_lines(lines, n)[j]) < (
            #[trigger] painted_lines(lines, n)[k]),
    decreases n,
{
    if n > 0 {
        every_registered_crosswalk_is_painted(lines, n - 1);
        let rest = painted_lines(lines, n - 1);
        let all = painted_lines(lines, n);
        if is_painted(lines[n - 1]) {
            assert(all[rest.len() as int] == n - 1);
        }
        assert forall|k: int| 0 <= k < all.len() implies 0 <= #[trigger] all[k] < n by {
            if k < rest.len() {
                assert(all[k] == rest[k]);
            }
        }
        assert forall|j: int, k: int| 0 <= j < k < all.len() implies (#[trigger] all[j]) < (#[trigger] all[k]) by {
            assert(all[j] == rest[j]);
            if k < rest.len() {
                assert(all[k] == rest[k]);
            }
        }
        assert forall|i: int| 0 <= i < n implies (all.contains(i) <==> (#[trigger] lines[i]).crosswalk && lines[i].points
            >= 2 && !lines[i].elevated && lines[i].total > 0 && line_hosts(lines[i]).len() > 0 && line_chords(
            lines[i],
        ).len() > 0) by {
            if rest.contains(i) {
                let k = choose|k: int| 0 <= k < rest.len() && rest[k] == i;
                assert(all[k] == i);
            }
            if all.contains(i) {
                let k = choose|k: int| 0 <= k < all.len() && all[k] == i;
                if k < rest.len() {
                    assert(rest[k] == i);
                }
            }
        }
    }
}

/// Every stub of every painted line is drawn, and no other.
pub proof fn every_painted_lines_stubs_are_drawn(lines: Seq<CrossingLine>, n: int, i: int, k: int)
    requires
        0 <= n <= lines.len() <= usize::MAX,
    ensures
        0 <= i < n && is_painted(lines[i]) && 0 <= k < stubs_of(line_chords(lines[i]), lines[i].total as int).len()
            ==> stubs_of_lines(lines, n).contains(
            (Stub {
                line: i as usize,
                from: stubs_of(line_chords(lines[i]), lines[i].total as int)[k].0,
                to: stubs_of(line_chords(lines[i]), lines[i].total as int)[k].1,
            }),
        ),
        0 <= k < stubs_of_lines(lines, n).len() ==> {
            let s = stubs_of_lines(lines, n)[k];
            let l = lines[s.line as int];
            &&& 0 <= s.line < n
            &&& is_painted(l)
            &&& stubs_of(line_chords(l), l.total as int).contains((s.from, s.to))
        },
    decreases n,
{
    if n > 0 {
        every_painted_lines_stubs_are_drawn(lines, n - 1, i, k);
        let rest = stubs_of_lines(lines, n - 1);
        let all = stubs_of_lines(lines, n);
        let spans = stubs_of(line_chords(lines[n - 1]), lines[n - 1].total as int);
        let more = as_stubs(spans, n - 1);
        if 0 <= i < n && is_painted(lines[i]) && 0 <= k < stubs_of(line_chords(lines[i]), lines[i].total as int).len() {
            let own = stubs_of(line_chords(lines[i]), lines[i].total as int)[k];
            let x = Stub { line: i as usize, from: own.0, to: own.1 };
            if i < n - 1 {
                let at = choose|at: int| 0 <= at < rest.len() && rest[at] == x;
                assert(all[at] == x);
            } else {
                assert(all[rest.len() + k] == more[k]);
                assert(more[k] == x);
            }
        }
        if 0 <= k < all.len() {
            if k < rest.len() {
                assert(all[k] == rest[k]);
            } else {
                assert(all[k] == more[k - rest.len()]);
                assert(spans[k - rest.len()] == (all[k].from, all[k].to));
            }
        }
    }
}

/// The nearest crossing point whose street runs anywhere is taken, the earliest
/// of several; none where no street there runs.
pub proof fn the_nearest_running_street_gives_the_direction(seen: Seq<TangentAt>, n: int)
    requires
        0 <= n <= seen.len(),
    ensures
        match nearest_running(seen, n) {
            Some(k) => {
                &&& 0 <= k < n
                &&& seen[k].runs
                &&& forall|j: int| 0 <= j < n && (#[trigger] seen[j]).runs ==> seen[k].distance <= seen[j].distance
                &&& forall|j: int| 0 <= j < k && (#[trigger] seen[j]).runs ==> seen[k].distance < seen[j].distance
            },
            None => forall|j: int| 0 <= j < n ==> !(#[trigger] seen[j]).runs,
        },
    decreases n,
{
    if n > 0 {
        the_nearest_running_street_gives_the_direction(seen, n - 1);
    }
}

} // verus!
