//! The pavements: one continuous strip per street side, over the whole extent
//! the data claims.
use std::collections::HashMap;
use vstd::prelude::*;
use vstd::std_specs::hash::*;
use crate::synth::walkway::claims::{
    by_start, covered, owner_of, side_key, spans_of, LevelRun, Part, SideClaims, Sides,
};

pub mod laid;

verus! {

/// What the strips of every street are drawn by.
#[derive(Clone, Copy, Debug, PartialEq, Eq, Structural)]
pub struct StripPriors {
    /// Widest gap between two claims that is still pavement.
    pub corner: i64,
    /// Width of a full strip.
    pub width: i64,
    /// How far a strip stands above its street.
    pub kerb: i64,
    /// Two stations closer than this are one.
    pub eps: i64,
}

/// A stretch of a street: its own stations, and what the cross-section allots
/// and where the road lies at each stop of its strip.
#[derive(Debug)]
pub struct RunReading {
    pub run: LevelRun,
    pub arcs: Vec<i64>,
    /// Width allotted on the left and on the right.
    pub walk: Vec<(i64, i64)>,
    /// Height of the road.
    pub road: Vec<i64>,
}

/// A street.
#[derive(Debug)]
pub struct StreetReading {
    pub id: u32,
    /// Drawn half width, where it paves anything.
    pub half: Option<i64>,
    /// Whether it is given a pavement the data does not map.
    pub synth: bool,
    pub runs: Vec<RunReading>,
}

/// One segment of a strip.
#[derive(Clone, Copy, Debug, PartialEq, Eq, Structural)]
pub struct Strip {
    pub corridor: u32,
    pub side: u8,
    /// Which run of the street, and which stop of it the segment starts at.
    pub run: usize,
    pub stop: usize,
    pub from: i64,
    pub to: i64,
    pub width_a: i64,
    pub width_b: i64,
    pub level: i64,
    pub height_a: i64,
    pub height_b: i64,
    /// The way that witnessed it, nought where none did.
    pub source: u64,
}

// ---------------------------------------------------------------------------
// The stops of a run.
// ---------------------------------------------------------------------------

/// The first `n` arcs strictly inside a run.
pub open spec fn inner_arcs(arcs: Seq<i64>, from: int, to: int, n: int) -> Seq<i64>
    decreases n,
{
    if n <= 0 {
        Seq::empty()
    } else {
        let rest = inner_arcs(arcs, from, to, n - 1);
        if from < arcs[n - 1] < to {
            rest.push(arcs[n - 1])
        } else {
            rest
        }
    }
}

/// The ends of the first `n` stretches.
pub open spec fn bounds_of(spans: Seq<(i64, i64)>, n: int) -> Seq<i64>
    decreases n,
{
    if n <= 0 {
        Seq::empty()
    } else {
        bounds_of(spans, n - 1).push(spans[n - 1].0).push(spans[n - 1].1)
    }
}

/// Where an arc goes among the first `n`: behind every one no larger.
pub open spec fn arc_rank(arcs: Seq<i64>, a: i64, n: int) -> int
    decreases n,
{
    if n <= 0 {
        0
    } else {
        let before = arc_rank(arcs, a, n - 1);
        if before == n - 1 && arcs[n - 1] <= a {
            n
        } else {
            before
        }
    }
}

/// The first `n` arcs in ascending order.
pub open spec fn ascending(arcs: Seq<i64>, n: int) -> Seq<i64>
    decreases n,
{
    if n <= 0 {
        Seq::empty()
    } else {
        let rest = ascending(arcs, n - 1);
        rest.insert(arc_rank(rest, arcs[n - 1], rest.len() as int), arcs[n - 1])
    }
}

/// The stations of a run, in order: the street's own, and where a claim to
/// either side begins or ends.
pub open spec fn stations(run: LevelRun, arcs: Seq<i64>, left: Seq<(i64, i64)>, right: Seq<(i64, i64)>) -> Seq<i64> {
    let own = inner_arcs(arcs, run.from as int, run.to as int, arcs.len() as int);
    let ends = bounds_of(left, left.len() as int) + bounds_of(right, right.len() as int);
    let all = own + inner_arcs(ends, run.from as int, run.to as int, ends.len() as int);
    ascending(all, all.len() as int)
}

/// The stops from `from` over the first `n` stations: those further than `eps`
/// past the last.
pub open spec fn stops_over(from: i64, at: Seq<i64>, eps: int, n: int) -> Seq<i64>
    decreases n,
{
    if n <= 0 {
        seq![from]
    } else {
        let rest = stops_over(from, at, eps, n - 1);
        if at[n - 1] - rest.last() > eps {
            rest.push(at[n - 1])
        } else {
            rest
        }
    }
}

/// The stops of a run's strip.
pub open spec fn stops_of(run: LevelRun, arcs: Seq<i64>, left: Seq<(i64, i64)>, right: Seq<(i64, i64)>, eps: int) -> Seq<i64> {
    let at = stations(run, arcs, left, right).push(run.to);
    stops_over(run.from, at, eps, at.len() as int)
}

pub open spec fn rising(s: Seq<i64>) -> bool {
    forall|i: int, j: int| 0 <= i < j < s.len() ==> (#[trigger] s[i]) <= (#[trigger] s[j])
}

proof fn lemma_arc_rank(arcs: Seq<i64>, a: i64, n: int)
    requires
        rising(arcs),
        0 <= n <= arcs.len(),
    ensures
        0 <= arc_rank(arcs, a, n) <= n,
        forall|i: int| 0 <= i < arc_rank(arcs, a, n) ==> (#[trigger] arcs[i]) <= a,
        forall|i: int| arc_rank(arcs, a, n) <= i < n ==> (#[trigger] arcs[i]) > a,
    decreases n,
{
    if n > 0 {
        lemma_arc_rank(arcs, a, n - 1);
        let r = arc_rank(arcs, a, n - 1);
        if r < n - 1 {
            assert(arcs[r] <= arcs[n - 1]);
        }
    }
}

proof fn lemma_ascending(arcs: Seq<i64>, n: int)
    requires
        0 <= n <= arcs.len(),
    ensures
        rising(ascending(arcs, n)),
        ascending(arcs, n).len() == n,
        forall|i: int| 0 <= i < n ==> ascending(arcs, n).contains(#[trigger] arcs[i]),
    decreases n,
{
    if n > 0 {
        lemma_ascending(arcs, n - 1);
        let rest = ascending(arcs, n - 1);
        let a = arcs[n - 1];
        lemma_arc_rank(rest, a, n - 1);
        let r = arc_rank(rest, a, n - 1);
        let all = ascending(arcs, n);
        assert forall|i: int, j: int| 0 <= i < j < all.len() implies (#[trigger] all[i]) <= (#[trigger] all[j]) by {
            let x = if i < r {
                i
            } else {
                i - 1
            };
            let y = if j < r {
                j
            } else {
                j - 1
            };
            if i != r {
                assert(all[i] == rest[x]);
            }
            if j != r {
                assert(all[j] == rest[y]);
            }
        }
        assert forall|i: int| 0 <= i < n implies all.contains(#[trigger] arcs[i]) by {
            if i == n - 1 {
                assert(all[r] == arcs[i]);
            } else {
                let k = choose|k: int| 0 <= k < rest.len() && rest[k] == arcs[i];
                assert(all[if k < r {
                    k
                } else {
                    k + 1
                }] == arcs[i]);
            }
        }
    }
}

proof fn lemma_inner_arcs(arcs: Seq<i64>, from: int, to: int, n: int)
    requires
        0 <= n <= arcs.len(),
    ensures
        forall|i: int| 0 <= i < n && from < #[trigger] arcs[i] < to ==> inner_arcs(arcs, from, to, n).contains(arcs[i]),
    decreases n,
{
    if n > 0 {
        lemma_inner_arcs(arcs, from, to, n - 1);
        let rest = inner_arcs(arcs, from, to, n - 1);
        let all = inner_arcs(arcs, from, to, n);
        assert forall|i: int| 0 <= i < n && from < #[trigger] arcs[i] < to implies all.contains(arcs[i]) by {
            if i < n - 1 {
                let k = choose|k: int| 0 <= k < rest.len() && rest[k] == arcs[i];
                assert(all[k] == arcs[i]);
            } else {
                assert(all[rest.len() as int] == arcs[i]);
            }
        }
    }
}

proof fn lemma_stops_over(from: i64, at: Seq<i64>, eps: int, n: int)
    requires
        0 <= n <= at.len(),
        0 <= eps,
        rising(at),
        forall|i: int| 0 <= i < at.len() ==> from <= #[trigger] at[i],
    ensures
        stops_over(from, at, eps, n).len() > 0,
        stops_over(from, at, eps, n)[0] == from,
        n > 0 ==> stops_over(from, at, eps, n).last() <= at[n - 1] <= stops_over(from, at, eps, n).last() + eps,
        forall|i: int, j: int|
            0 <= i < j < stops_over(from, at, eps, n).len() ==> (#[trigger] stops_over(from, at, eps, n)[i]) + eps < (
            #[trigger] stops_over(from, at, eps, n)[j]),
        forall|i: int|
            0 <= i < n ==> exists|k: int|
                0 <= k < stops_over(from, at, eps, n).len() && (#[trigger] stops_over(from, at, eps, n)[k]) <= (
                #[trigger] at[i]) <= stops_over(from, at, eps, n)[k] + eps,
    decreases n,
{
    if n > 0 {
        lemma_stops_over(from, at, eps, n - 1);
        let rest = stops_over(from, at, eps, n - 1);
        let all = stops_over(from, at, eps, n);
        if n > 1 {
            assert(at[n - 2] <= at[n - 1]);
        }
        let m = rest.len() as int;
        assert forall|i: int, j: int| 0 <= i < j < all.len() implies (#[trigger] all[i]) + eps < (#[trigger] all[j]) by {
            if j == m {
                assert(all[i] == rest[i]);
                if i < m - 1 {
                    assert(rest[i] + eps < rest[m - 1]);
                }
            }
        }
        assert forall|i: int| 0 <= i < n implies exists|k: int|
            0 <= k < all.len() && (#[trigger] all[k]) <= (#[trigger] at[i]) <= all[k] + eps by {
            if i < n - 1 {
                let k = choose|k: int| 0 <= k < rest.len() && (#[trigger] rest[k]) <= at[i] <= rest[k] + eps;
                assert(all[k] <= at[i] <= all[k] + eps);
            } else {
                assert(all[all.len() - 1] <= at[i] <= all[all.len() - 1] + eps);
            }
        }
    }
}

proof fn lemma_inner_bounds(arcs: Seq<i64>, from: int, to: int, n: int)
    requires
        0 <= n <= arcs.len(),
    ensures
        forall|i: int|
            0 <= i < inner_arcs(arcs, from, to, n).len() ==> from < #[trigger] inner_arcs(arcs, from, to, n)[i] < to,
    decreases n,
{
    if n > 0 {
        lemma_inner_bounds(arcs, from, to, n - 1);
        let rest = inner_arcs(arcs, from, to, n - 1);
        let all = inner_arcs(arcs, from, to, n);
        assert forall|i: int| 0 <= i < all.len() implies from < #[trigger] all[i] < to by {
            if i < rest.len() {
                assert(all[i] == rest[i]);
            }
        }
    }
}

proof fn lemma_ascending_from(arcs: Seq<i64>, n: int, lo: int, hi: int)
    requires
        0 <= n <= arcs.len(),
        forall|i: int| 0 <= i < arcs.len() ==> lo < #[trigger] arcs[i] < hi,
    ensures
        forall|i: int| 0 <= i < ascending(arcs, n).len() ==> lo < #[trigger] ascending(arcs, n)[i] < hi,
    decreases n,
{
    if n > 0 {
        lemma_ascending_from(arcs, n - 1, lo, hi);
        lemma_ascending(arcs, n - 1);
        let rest = ascending(arcs, n - 1);
        let a = arcs[n - 1];
        lemma_arc_rank(rest, a, n - 1);
        let r = arc_rank(rest, a, n - 1);
        let all = ascending(arcs, n);
        assert forall|i: int| 0 <= i < all.len() implies lo < #[trigger] all[i] < hi by {
            if i != r {
                assert(all[i] == rest[if i < r {
                    i
                } else {
                    i - 1
                }]);
            }
        }
    }
}

/// A strip is cut where its claims begin and end: its stops start with the run,
/// rise by more than `eps`, and one lies within `eps` before every station of
/// the street, every claim's end inside the run, and the run's own end.
pub proof fn claims_end_at_stops(run: LevelRun, arcs: Seq<i64>, left: Seq<(i64, i64)>, right: Seq<(i64, i64)>, eps: int)
    requires
        0 <= eps,
        run.from <= run.to,
    ensures
        ({
            let stops = stops_of(run, arcs, left, right, eps);
            let at = stations(run, arcs, left, right);
            &&& stops.len() > 0
            &&& stops[0] == run.from
            &&& forall|i: int, j: int|
                0 <= i < j < stops.len() ==> (#[trigger] stops[i]) + eps < (#[trigger] stops[j])
            &&& stops.last() <= run.to <= stops.last() + eps
            &&& forall|i: int|
                0 <= i < at.len() ==> exists|k: int|
                    0 <= k < stops.len() && (#[trigger] stops[k]) <= (#[trigger] at[i]) <= stops[k] + eps
            &&& forall|i: int|
                0 <= i < bounds_of(left, left.len() as int).len() && run.from < (#[trigger] bounds_of(
                    left,
                    left.len() as int,
                )[i]) < run.to ==> at.contains(bounds_of(left, left.len() as int)[i])
            &&& forall|i: int|
                0 <= i < bounds_of(right, right.len() as int).len() && run.from < (#[trigger] bounds_of(
                    right,
                    right.len() as int,
                )[i]) < run.to ==> at.contains(bounds_of(right, right.len() as int)[i])
        }),
{
    let (from, to) = (run.from as int, run.to as int);
    let own = inner_arcs(arcs, from, to, arcs.len() as int);
    let lb = bounds_of(left, left.len() as int);
    let rb = bounds_of(right, right.len() as int);
    let ends = lb + rb;
    let inner = inner_arcs(ends, from, to, ends.len() as int);
    let all = own + inner;
    let at = ascending(all, all.len() as int);
    lemma_inner_bounds(arcs, from, to, arcs.len() as int);
    lemma_inner_bounds(ends, from, to, ends.len() as int);
    lemma_inner_arcs(ends, from, to, ends.len() as int);
    assert forall|i: int| 0 <= i < all.len() implies from < #[trigger] all[i] < to by {
        if i >= own.len() {
            assert(all[i] == inner[i - own.len()]);
        }
    }
    lemma_ascending(all, all.len() as int);
    lemma_ascending_from(all, all.len() as int, from, to);
    let full = at.push(run.to);
    assert(rising(full));
    lemma_stops_over(run.from, full, eps, full.len() as int);
    let stops = stops_of(run, arcs, left, right, eps);
    assert forall|i: int| 0 <= i < at.len() implies exists|k: int|
        0 <= k < stops.len() && (#[trigger] stops[k]) <= (#[trigger] at[i]) <= stops[k] + eps by {
        assert(full[i] == at[i]);
    }
    assert forall|i: int| 0 <= i < lb.len() && from < (#[trigger] lb[i]) < to implies at.contains(lb[i]) by {
        assert(ends[i] == lb[i]);
        let k = choose|k: int| 0 <= k < inner.len() && inner[k] == ends[i];
        assert(all[own.len() + k] == lb[i]);
    }
    assert forall|i: int| 0 <= i < rb.len() && from < (#[trigger] rb[i]) < to implies at.contains(rb[i]) by {
        assert(ends[lb.len() + i] == rb[i]);
        let k = choose|k: int| 0 <= k < inner.len() && inner[k] == ends[lb.len() + i];
        assert(all[own.len() + k] == rb[i]);
    }
}

fn push_inside(out: &mut Vec<i64>, arc: i64, run: &LevelRun)
    ensures
        final(out)@ == (if run.from < arc < run.to {
            old(out)@.push(arc)
        } else {
            old(out)@
        }),
{
    if run.from < arc && arc < run.to {
        out.push(arc);
    }
}

fn push_bounds(out: &mut Vec<i64>, spans: &Vec<(i64, i64)>)
    ensures
        final(out)@ == old(out)@ + bounds_of(spans@, spans@.len() as int),
{
    let mut i: usize = 0;
    assert(out@ =~= old(out)@ + bounds_of(spans@, 0));
    while i < spans.len()
        invariant
            i <= spans@.len(),
            out@ == old(out)@ + bounds_of(spans@, i as int),
        decreases spans@.len() - i,
    {
        out.push(spans[i].0);
        out.push(spans[i].1);
        i = i + 1;
        assert(out@ =~= old(out)@ + bounds_of(spans@, i as int));
    }
}

fn sort_arcs(arcs: &Vec<i64>) -> (out: Vec<i64>)
    ensures
        out@ == ascending(arcs@, arcs@.len() as int),
{
    let mut out: Vec<i64> = Vec::new();
    let mut i: usize = 0;
    while i < arcs.len()
        invariant
            i <= arcs@.len(),
            out@ == ascending(arcs@, i as int),
            out@.len() == i,
        decreases arcs@.len() - i,
    {
        let a: i64 = arcs[i];
        let mut rank: usize = 0;
        let mut k: usize = 0;
        while k < out.len()
            invariant
                k <= out@.len(),
                rank <= k,
                rank == arc_rank(out@, a, k as int),
            decreases out@.len() - k,
        {
            if rank == k && out[k] <= a {
                rank = k + 1;
            }
            k = k + 1;
        }
        out.insert(rank, a);
        i = i + 1;
    }
    out
}

/// The stops of a run's strip.
pub fn run_stops(run: &LevelRun, arcs: &Vec<i64>, left: &Vec<(i64, i64)>, right: &Vec<(i64, i64)>, eps: i64) -> (out:
    Vec<i64>)
    ensures
        out@ == stops_of(*run, arcs@, left@, right@, eps as int),
        out@.len() > 0,
{
    let mut all: Vec<i64> = Vec::new();
    let mut i: usize = 0;
    while i < arcs.len()
        invariant
            i <= arcs@.len(),
            all@ == inner_arcs(arcs@, run.from as int, run.to as int, i as int),
        decreases arcs@.len() - i,
    {
        push_inside(&mut all, arcs[i], run);
        i = i + 1;
    }
    let ghost own = all@;
    let mut ends: Vec<i64> = Vec::new();
    push_bounds(&mut ends, left);
    push_bounds(&mut ends, right);
    assert(ends@ =~= bounds_of(left@, left@.len() as int) + bounds_of(right@, right@.len() as int));
    let mut e: usize = 0;
    assert(all@ =~= own + inner_arcs(ends@, run.from as int, run.to as int, 0));
    while e < ends.len()
        invariant
            e <= ends@.len(),
            all@ == own + inner_arcs(ends@, run.from as int, run.to as int, e as int),
        decreases ends@.len() - e,
    {
        push_inside(&mut all, ends[e], run);
        e = e + 1;
        assert(all@ =~= own + inner_arcs(ends@, run.from as int, run.to as int, e as int));
    }
    let mut at: Vec<i64> = sort_arcs(&all);
    at.push(run.to);
    let mut stops: Vec<i64> = Vec::new();
    stops.push(run.from);
    assert(stops@ =~= seq![run.from]);
    let mut k: usize = 0;
    while k < at.len()
        invariant
            k <= at@.len(),
            stops@.len() > 0,
            stops@ == stops_over(run.from, at@, eps as int, k as int),
        decreases at@.len() - k,
    {
        let last: i64 = stops[stops.len() - 1];
        if at[k] as i128 - last as i128 > eps as i128 {
            stops.push(at[k]);
        }
        k = k + 1;
    }
    stops
}

// ---------------------------------------------------------------------------
// The strips.
// ---------------------------------------------------------------------------

/// The claims to a street side, in order.
pub open spec fn side_parts(sides: Sides, id: u32, side: u8) -> Seq<Part> {
    let laid = sides.laid(side_key(id, side));
    by_start(laid, laid.len() as int)
}

/// The stretches of a street side the data asserts pavement on.
pub open spec fn side_spans(sides: Sides, id: u32, side: u8, corner: int) -> Seq<(i64, i64)> {
    let parts = side_parts(sides, id, side);
    spans_of(parts, corner, parts.len() as int)
}

/// The stops of a run of a street.
pub open spec fn reading_stops(sides: Sides, s: StreetReading, r: RunReading, p: StripPriors) -> Seq<i64> {
    stops_of(
        r.run,
        r.arcs@,
        side_spans(sides, s.id, 0, p.corner as int),
        side_spans(sides, s.id, 1, p.corner as int),
        p.eps as int,
    )
}

pub open spec fn run_fits(sides: Sides, s: StreetReading, r: RunReading, p: StripPriors) -> bool {
    let n = reading_stops(sides, s, r, p).len();
    r.run.grade ==> {
        &&& r.walk@.len() == n
        &&& r.road@.len() == n
        &&& forall|k: int| 0 <= k < n ==> i64::MIN <= (#[trigger] r.road@[k]) + p.kerb <= i64::MAX
    }
}

pub open spec fn street_fits(sides: Sides, s: StreetReading, p: StripPriors) -> bool {
    forall|r: int| 0 <= r < s.runs@.len() ==> run_fits(sides, s, #[trigger] s.runs@[r], p)
}

/// What each side of a street asks for at a stop: a full strip where the data
/// claims one or the street is given one.
pub open spec fn asked(sides: Sides, s: StreetReading, side: u8, arc: int, p: StripPriors) -> i64 {
    if s.synth || covered(side_spans(sides, s.id, side, p.corner as int), 2 * arc) {
        p.width
    } else {
        0
    }
}

pub open spec fn width_on(w: (i64, i64), side: int) -> i64 {
    if side == 0 {
        w.0
    } else {
        w.1
    }
}

/// The segment between stop `i` of a run and the next, where one is drawn: it
/// is owed, and the room left a width at both ends.
pub open spec fn strip_at(sides: Sides, s: StreetReading, run: int, side: int, i: int, p: StripPriors) -> Option<Strip> {
    let r = s.runs@[run];
    let stops = reading_stops(sides, s, r, p);
    let spans = side_spans(sides, s.id, side as u8, p.corner as int);
    let claimed = covered(spans, stops[i] + stops[i + 1]);
    let (wa, wb) = (width_on(r.walk@[i], side), width_on(r.walk@[i + 1], side));
    if (s.synth || claimed) && wa > 0 && wb > 0 {
        Some(
            Strip {
                corridor: s.id,
                side: side as u8,
                run: run as usize,
                stop: i as usize,
                from: stops[i],
                to: stops[i + 1],
                width_a: wa,
                width_b: wb,
                level: r.run.level,
                height_a: (r.road@[i] + p.kerb) as i64,
                height_b: (r.road@[i + 1] + p.kerb) as i64,
                source: if claimed {
                    owner_of(side_parts(sides, s.id, side as u8), stops[i] as int)
                } else {
                    0
                },
            },
        )
    } else {
        None
    }
}

/// The first `n` segments of one side of a run.
pub open spec fn side_strips(sides: Sides, s: StreetReading, run: int, side: int, p: StripPriors, n: int) -> Seq<Strip>
    decreases n,
{
    if n <= 0 {
        Seq::empty()
    } else {
        let rest = side_strips(sides, s, run, side, p, n - 1);
        match strip_at(sides, s, run, side, n - 1, p) {
            Some(x) => rest.push(x),
            None => rest,
        }
    }
}

/// The strips of a run: the left side, then the right. Only where the street is
/// on the ground.
pub open spec fn run_strips(sides: Sides, s: StreetReading, run: int, p: StripPriors) -> Seq<Strip> {
    let n = reading_stops(sides, s, s.runs@[run], p).len() - 1;
    if s.runs@[run].run.grade {
        side_strips(sides, s, run, 0, p, n) + side_strips(sides, s, run, 1, p, n)
    } else {
        Seq::empty()
    }
}

/// The strips of the first `n` runs of a street.
pub open spec fn street_strips(sides: Sides, s: StreetReading, p: StripPriors, n: int) -> Seq<Strip>
    decreases n,
{
    if n <= 0 {
        Seq::empty()
    } else {
        street_strips(sides, s, p, n - 1) + run_strips(sides, s, n - 1, p)
    }
}

/// The strips of the first `n` streets. One that paves nothing has no kerb to
/// sit on.
pub open spec fn all_strips(sides: Sides, streets: Seq<StreetReading>, p: StripPriors, n: int) -> Seq<Strip>
    decreases n,
{
    if n <= 0 {
        Seq::empty()
    } else {
        let rest = all_strips(sides, streets, p, n - 1);
        let s = streets[n - 1];
        if s.half is Some {
            rest + street_strips(sides, s, p, s.runs@.len() as int)
        } else {
            rest
        }
    }
}

/// A strip is continuous: where two neighbouring segments of a side are both
/// drawn, one ends where and as the next begins.
pub proof fn neighbouring_strips_meet(sides: Sides, s: StreetReading, run: int, side: int, i: int, p: StripPriors)
    requires
        strip_at(sides, s, run, side, i, p) is Some,
        strip_at(sides, s, run, side, i + 1, p) is Some,
    ensures
        ({
            let a = strip_at(sides, s, run, side, i, p)->0;
            let b = strip_at(sides, s, run, side, i + 1, p)->0;
            &&& a.to == b.from
            &&& a.width_b == b.width_a
            &&& a.height_b == b.height_a
            &&& a.level == b.level
        }),
{
}

/// A pavement stops only where nothing claims it or the room ran out.
pub proof fn a_strip_stops_only_for_want_of_room(sides: Sides, s: StreetReading, run: int, side: int, i: int, p: StripPriors)
    requires
        strip_at(sides, s, run, side, i, p) is None,
    ensures
        ({
            let r = s.runs@[run];
            let stops = reading_stops(sides, s, r, p);
            ||| !s.synth && !covered(side_spans(sides, s.id, side as u8, p.corner as int), stops[i] + stops[i + 1])
            ||| width_on(r.walk@[i], side) <= 0
            ||| width_on(r.walk@[i + 1], side) <= 0
        }),
{
}

/// A synthesized stretch no way claims belongs to none.
pub proof fn an_unclaimed_strip_has_no_source(sides: Sides, s: StreetReading, run: int, side: int, i: int, p: StripPriors)
    requires
        strip_at(sides, s, run, side, i, p) is Some,
        ({
            let stops = reading_stops(sides, s, s.runs@[run], p);
            !covered(side_spans(sides, s.id, side as u8, p.corner as int), stops[i] + stops[i + 1])
        }),
    ensures
        strip_at(sides, s, run, side, i, p)->0.source == 0,
        s.synth,
{
}

/// The stretches of one street side, and the way each belongs to.
pub(crate) fn claims_of(sides: &Sides, id: u32, side: u8, corner: i64) -> (out: SideClaims)
    ensures
        out.parts@ == side_parts(*sides, id, side),
        out.spans@ == side_spans(*sides, id, side, corner as int),
{
    match sides.claims(id, side, corner) {
        Some(c) => c,
        None => {
            let c = SideClaims { spans: Vec::new(), parts: Vec::new() };
            assert(c.parts@ =~= side_parts(*sides, id, side));
            assert(c.spans@ =~= side_spans(*sides, id, side, corner as int));
            c
        },
    }
}

/// What both sides of a street ask for at its stops.
pub fn wanted(sides: &Sides, s: &StreetReading, stops: &Vec<i64>, p: &StripPriors) -> (out: Vec<(i64, i64)>)
    ensures
        out@.len() == stops@.len(),
        forall|k: int|
            0 <= k < stops@.len() ==> (#[trigger] out@[k]) == (
                asked(*sides, *s, 0, stops@[k] as int, *p),
                asked(*sides, *s, 1, stops@[k] as int, *p),
            ),
{
    let left: SideClaims = claims_of(sides, s.id, 0, p.corner);
    let right: SideClaims = claims_of(sides, s.id, 1, p.corner);
    let mut out: Vec<(i64, i64)> = Vec::new();
    let mut i: usize = 0;
    while i < stops.len()
        invariant
            i <= stops@.len(),
            left.spans@ == side_spans(*sides, s.id, 0, p.corner as int),
            right.spans@ == side_spans(*sides, s.id, 1, p.corner as int),
            out@.len() == i,
            forall|k: int|
                0 <= k < i ==> (#[trigger] out@[k]) == (
                    asked(*sides, *s, 0, stops@[k] as int, *p),
                    asked(*sides, *s, 1, stops@[k] as int, *p),
                ),
        decreases stops@.len() - i,
    {
        let a: i64 = if s.synth || left.covers(stops[i]) { p.width } else { 0 };
        let b: i64 = if s.synth || right.covers(stops[i]) { p.width } else { 0 };
        out.push((a, b));
        i = i + 1;
    }
    out
}

fn push_side(
    sides: &Sides,
    s: &StreetReading,
    run: usize,
    side: u8,
    stops: &Vec<i64>,
    claims: &SideClaims,
    p: &StripPriors,
    out: &mut Vec<Strip>,
)
    requires
        run < s.runs@.len(),
        s.runs@[run as int].run.grade,
        run_fits(*sides, *s, s.runs@[run as int], *p),
        side < 2,
        stops@ == reading_stops(*sides, *s, s.runs@[run as int], *p),
        stops@.len() > 0,
        claims.parts@ == side_parts(*sides, s.id, side),
        claims.spans@ == side_spans(*sides, s.id, side, p.corner as int),
    ensures
        final(out)@ == old(out)@ + side_strips(*sides, *s, run as int, side as int, *p, stops@.len() - 1),
{
    let r: &RunReading = &s.runs[run];
    let mut i: usize = 0;
    assert(out@ =~= old(out)@ + side_strips(*sides, *s, run as int, side as int, *p, 0));
    while i < stops.len() - 1
        invariant
            i <= stops@.len() - 1,
            run < s.runs@.len(),
            *r == s.runs@[run as int],
            r.run.grade,
            run_fits(*sides, *s, *r, *p),
            side < 2,
            stops@ == reading_stops(*sides, *s, *r, *p),
            stops@.len() > 0,
            claims.parts@ == side_parts(*sides, s.id, side),
            claims.spans@ == side_spans(*sides, s.id, side, p.corner as int),
            out@ == old(out)@ + side_strips(*sides, *s, run as int, side as int, *p, i as int),
        decreases stops@.len() - 1 - i,
    {
        let claimed: bool = claims.covers_middle(stops[i], stops[i + 1]);
        let wa: i64 = if side == 0 { r.walk[i].0 } else { r.walk[i].1 };
        let wb: i64 = if side == 0 { r.walk[i + 1].0 } else { r.walk[i + 1].1 };
        assert(r.road@[i as int] + p.kerb <= i64::MAX && r.road@[i + 1] + p.kerb <= i64::MAX);
        if (s.synth || claimed) && wa > 0 && wb > 0 {
            let source: u64 = if claimed { claims.owner(stops[i]) } else { 0 };
            out.push(
                Strip {
                    corridor: s.id,
                    side,
                    run,
                    stop: i,
                    from: stops[i],
                    to: stops[i + 1],
                    width_a: wa,
                    width_b: wb,
                    level: r.run.level,
                    height_a: r.road[i] + p.kerb,
                    height_b: r.road[i + 1] + p.kerb,
                    source,
                },
            );
        }
        i = i + 1;
        assert(out@ =~= old(out)@ + side_strips(*sides, *s, run as int, side as int, *p, i as int));
    }
}

/// The strips of every street.
pub fn street_bands(sides: &Sides, streets: &[StreetReading], p: &StripPriors) -> (out: Vec<Strip>)
    requires
        forall|i: int| 0 <= i < streets@.len() ==> street_fits(*sides, #[trigger] streets@[i], *p),
    ensures
        out@ == all_strips(*sides, streets@, *p, streets@.len() as int),
{
    let mut out: Vec<Strip> = Vec::new();
    let mut i: usize = 0;
    while i < streets.len()
        invariant
            i <= streets@.len(),
            forall|k: int| 0 <= k < streets@.len() ==> street_fits(*sides, #[trigger] streets@[k], *p),
            out@ == all_strips(*sides, streets@, *p, i as int),
        decreases streets@.len() - i,
    {
        let s: &StreetReading = &streets[i];
        assert(street_fits(*sides, streets@[i as int], *p));
        if s.half.is_some() {
            let left: SideClaims = claims_of(sides, s.id, 0, p.corner);
            let right: SideClaims = claims_of(sides, s.id, 1, p.corner);
            let ghost before = out@;
            let mut r: usize = 0;
            assert(out@ =~= before + street_strips(*sides, *s, *p, 0));
            while r < s.runs.len()
                invariant
                    r <= s.runs@.len(),
                    street_fits(*sides, *s, *p),
                    left.parts@ == side_parts(*sides, s.id, 0),
                    left.spans@ == side_spans(*sides, s.id, 0, p.corner as int),
                    right.parts@ == side_parts(*sides, s.id, 1),
                    right.spans@ == side_spans(*sides, s.id, 1, p.corner as int),
                    out@ == before + street_strips(*sides, *s, *p, r as int),
                decreases s.runs@.len() - r,
            {
                assert(run_fits(*sides, *s, s.runs@[r as int], *p));
                let reading: &RunReading = &s.runs[r];
                if reading.run.grade {
                    let stops: Vec<i64> = run_stops(&reading.run, &reading.arcs, &left.spans, &right.spans, p.eps);
                    push_side(sides, s, r, 0, &stops, &left, p, &mut out);
                    push_side(sides, s, r, 1, &stops, &right, p, &mut out);
                }
                r = r + 1;
                assert(out@ =~= before + street_strips(*sides, *s, *p, r as int));
            }
        }
        i = i + 1;
    }
    out
}

// ---------------------------------------------------------------------------
// What was built.
// ---------------------------------------------------------------------------

/// The stretches of a street side the first `n` strips built.
pub open spec fn built_of(strips: Seq<Strip>, key: u64, eps: int, n: int) -> Seq<(i64, i64)>
    decreases n,
{
    if n <= 0 {
        Seq::empty()
    } else {
        let rest = built_of(strips, key, eps, n - 1);
        let s = strips[n - 1];
        if side_key(s.corridor, s.side) != key {
            rest
        } else if rest.len() > 0 && s.from - rest.last().1 <= eps {
            rest.update(rest.len() - 1, (rest.last().0, s.to))
        } else {
            rest.push((s.from, s.to))
        }
    }
}

/// The stretches of every street side that became pavement.
#[derive(Debug)]
pub struct Built {
    spans: HashMap<u64, Vec<(i64, i64)>>,
}

impl Built {
    pub closed spec fn on(&self, key: u64) -> Seq<(i64, i64)> {
        if self.spans@.contains_key(key) {
            self.spans@[key]@
        } else {
            Seq::empty()
        }
    }

    pub open spec fn describes(&self, strips: Seq<Strip>, eps: int) -> bool {
        forall|key: u64| #[trigger] self.on(key) == built_of(strips, key, eps, strips.len() as int)
    }

    fn lay(&mut self, key: u64, from: i64, to: i64, eps: i64)
        ensures
            final(self).on(key) == ({
                let rest = old(self).on(key);
                if rest.len() > 0 && from - rest.last().1 <= eps {
                    rest.update(rest.len() - 1, (rest.last().0, to))
                } else {
                    rest.push((from, to))
                }
            }),
            forall|k: u64| k != key ==> #[trigger] final(self).on(k) == old(self).on(k),
    {
        broadcast use group_hash_axioms;

        let mut spans: Vec<(i64, i64)> = match self.spans.remove(&key) {
            Some(spans) => spans,
            None => Vec::new(),
        };
        let n: usize = spans.len();
        if n > 0 && from as i128 - spans[n - 1].1 as i128 <= eps as i128 {
            let start: i64 = spans[n - 1].0;
            spans.set(n - 1, (start, to));
        } else {
            spans.push((from, to));
        }
        self.spans.insert(key, spans);
    }

    /// What the strips built.
    pub fn of(strips: &[Strip], eps: i64) -> (out: Built)
        ensures
            out.describes(strips@, eps as int),
    {
        broadcast use group_hash_axioms;

        let mut out = Built { spans: HashMap::new() };
        let mut i: usize = 0;
        while i < strips.len()
            invariant
                i <= strips@.len(),
                forall|key: u64| #[trigger] out.on(key) == built_of(strips@, key, eps as int, i as int),
            decreases strips@.len() - i,
        {
            let s: Strip = strips[i];
            let key: u64 = s.corridor as u64 * 256 + s.side as u64;
            let ghost before = out;
            out.lay(key, s.from, s.to, eps);
            proof {
                assert forall|k: u64| #[trigger] out.on(k) == built_of(strips@, k, eps as int, i + 1) by {
                    assert(before.on(k) == built_of(strips@, k, eps as int, i as int));
                }
            }
            i = i + 1;
        }
        out
    }

    /// The built stretches of a street side.
    pub fn spans_on(&self, key: u64) -> (out: Vec<(i64, i64)>)
        ensures
            out@ == self.on(key),
    {
        broadcast use group_hash_axioms;

        let mut out: Vec<(i64, i64)> = Vec::new();
        if let Some(spans) = self.spans.get(&key) {
            let mut i: usize = 0;
            while i < spans.len()
                invariant
                    i <= spans@.len(),
                    out@ == spans@.take(i as int),
                decreases spans@.len() - i,
            {
                out.push(spans[i]);
                i = i + 1;
                assert(out@ =~= spans@.take(i as int));
            }
            assert(spans@.take(spans@.len() as int) =~= spans@);
        }
        out
    }
}

} // verus!
