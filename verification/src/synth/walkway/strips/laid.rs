//! Where the strips lie, how wide and how high they are, and what they built.
use vstd::prelude::*;

use crate::synth::walkway::claims::{owner_of, side_key, LevelRun, Sides};
use crate::synth::walkway::strips::{
    all_strips, ascending, asked, bounds_of, built_of, inner_arcs, lemma_ascending, lemma_inner_arcs, reading_stops,
    run_strips, side_parts, side_spans, side_strips, stations, street_strips, strip_at, StreetReading, Strip,
    StripPriors,
};

verus! {

/// Whether one of the stretches reaches over the middle of two arcs.
pub open spec fn reaches_middle(spans: Seq<(i64, i64)>, a: int, b: int) -> bool {
    exists|k: int| 0 <= k < spans.len() && (#[trigger] spans[k]).0 + spans[k].0 <= a + b <= spans[k].1 + spans[k].1
}

/// Between two stops a strip is drawn where the street is given one or the
/// middle of the two is claimed, and room was left at both ends. It is as wide
/// as its own side is allotted, stands a kerb above the road, and belongs to
/// the way whose claim it begins in.
pub proof fn a_strip_is_drawn_where_it_is_owed(sides: Sides, s: StreetReading, run: int, side: int, i: int, p: StripPriors)
    requires
        side == 0 || side == 1,
        0 <= run <= usize::MAX,
        0 <= i <= usize::MAX,
        ({
            let r = s.runs@[run];
            &&& i64::MIN <= r.road@[i] + p.kerb <= i64::MAX
            &&& i64::MIN <= r.road@[i + 1] + p.kerb <= i64::MAX
        }),
    ensures
        ({
            let r = s.runs@[run];
            let stops = reading_stops(sides, s, r, p);
            let spans = side_spans(sides, s.id, side as u8, p.corner as int);
            let (wa, wb) = if side == 0 {
                (r.walk@[i].0, r.walk@[i + 1].0)
            } else {
                (r.walk@[i].1, r.walk@[i + 1].1)
            };
            let claimed = reaches_middle(spans, stops[i] as int, stops[i + 1] as int);
            &&& strip_at(sides, s, run, side, i, p) is Some <==> (s.synth || claimed) && wa > 0 && wb > 0
            &&& strip_at(sides, s, run, side, i, p) matches Some(x) ==> {
                &&& x.corridor == s.id
                &&& x.side == side
                &&& x.run == run
                &&& x.stop == i
                &&& x.from == stops[i]
                &&& x.to == stops[i + 1]
                &&& x.width_a == wa
                &&& x.width_b == wb
                &&& x.level == r.run.level
                &&& x.height_a == r.road@[i] + p.kerb
                &&& x.height_b == r.road@[i + 1] + p.kerb
                &&& !claimed ==> x.source == 0
                &&& claimed ==> x.source == owner_of(side_parts(sides, s.id, side as u8), stops[i] as int)
            }
        }),
{
    let r = s.runs@[run];
    let stops = reading_stops(sides, s, r, p);
    let spans = side_spans(sides, s.id, side as u8, p.corner as int);
    if reaches_middle(spans, stops[i] as int, stops[i + 1] as int) {
        let k = choose|k: int|
            0 <= k < spans.len() && (#[trigger] spans[k]).0 + spans[k].0 <= stops[i] + stops[i + 1] <= spans[k].1
                + spans[k].1;
        assert(2 * spans[k].0 <= stops[i] + stops[i + 1] <= 2 * spans[k].1);
    }
}

proof fn lemma_side_strips(sides: Sides, s: StreetReading, run: int, side: int, p: StripPriors, n: int)
    ensures
        forall|i: int|
            0 <= i < n && (#[trigger] strip_at(sides, s, run, side, i, p)) is Some ==> side_strips(
                sides,
                s,
                run,
                side,
                p,
                n,
            ).contains(strip_at(sides, s, run, side, i, p)->0),
        forall|k: int|
            0 <= k < side_strips(sides, s, run, side, p, n).len() ==> exists|i: int|
                0 <= i < n && (#[trigger] strip_at(sides, s, run, side, i, p)) == Some(
                    #[trigger] side_strips(sides, s, run, side, p, n)[k],
                ),
    decreases n,
{
    if n > 0 {
        lemma_side_strips(sides, s, run, side, p, n - 1);
        let rest = side_strips(sides, s, run, side, p, n - 1);
        let all = side_strips(sides, s, run, side, p, n);
        if strip_at(sides, s, run, side, n - 1, p) is Some {
            assert(all[rest.len() as int] == strip_at(sides, s, run, side, n - 1, p)->0);
        }
        assert forall|i: int| 0 <= i < n && (#[trigger] strip_at(sides, s, run, side, i, p)) is Some implies all.contains(
            strip_at(sides, s, run, side, i, p)->0,
        ) by {
            let x = strip_at(sides, s, run, side, i, p)->0;
            if i < n - 1 {
                assert(rest.contains(x));
                let k = choose|k: int| 0 <= k < rest.len() && rest[k] == x;
                assert(all[k] == x);
            }
        }
        assert forall|k: int| 0 <= k < all.len() implies exists|i: int|
            0 <= i < n && (#[trigger] strip_at(sides, s, run, side, i, p)) == Some(#[trigger] all[k]) by {
            if k < rest.len() {
                assert(all[k] == rest[k]);
            } else {
                assert(strip_at(sides, s, run, side, n - 1, p) == Some(all[k]));
            }
        }
    }
}

proof fn lemma_holds(a: Seq<Strip>, b: Seq<Strip>, x: Strip)
    requires
        a.contains(x) || b.contains(x),
    ensures
        (a + b).contains(x),
{
    if a.contains(x) {
        let k = choose|k: int| 0 <= k < a.len() && a[k] == x;
        assert((a + b)[k] == x);
    } else {
        let k = choose|k: int| 0 <= k < b.len() && b[k] == x;
        assert((a + b)[a.len() + k] == x);
    }
}

proof fn lemma_street_strips(sides: Sides, s: StreetReading, p: StripPriors, n: int, run: int, x: Strip)
    requires
        0 <= run < n,
        run_strips(sides, s, run, p).contains(x),
    ensures
        street_strips(sides, s, p, n).contains(x),
    decreases n,
{
    if run < n - 1 {
        lemma_street_strips(sides, s, p, n - 1, run, x);
    }
    lemma_holds(street_strips(sides, s, p, n - 1), run_strips(sides, s, n - 1, p), x);
}

/// Every strip owed to either side of a run on the ground is drawn, on every
/// street that paves anything.
pub proof fn every_strip_owed_is_drawn(
    sides: Sides,
    streets: Seq<StreetReading>,
    p: StripPriors,
    n: int,
    k: int,
    run: int,
    side: int,
    i: int,
)
    requires
        0 <= k < n <= streets.len(),
        streets[k].half is Some,
        0 <= run < streets[k].runs@.len(),
        streets[k].runs@[run].run.grade,
        side == 0 || side == 1,
        0 <= i < reading_stops(sides, streets[k], streets[k].runs@[run], p).len() - 1,
        strip_at(sides, streets[k], run, side, i, p) is Some,
    ensures
        all_strips(sides, streets, p, n).contains(strip_at(sides, streets[k], run, side, i, p)->0),
    decreases n,
{
    let x = strip_at(sides, streets[k], run, side, i, p)->0;
    let rest = all_strips(sides, streets, p, n - 1);
    let s = streets[n - 1];
    if k < n - 1 {
        every_strip_owed_is_drawn(sides, streets, p, n - 1, k, run, side, i);
        if s.half is Some {
            lemma_holds(rest, street_strips(sides, s, p, s.runs@.len() as int), x);
        }
    } else {
        let m = reading_stops(sides, s, s.runs@[run], p).len() - 1;
        lemma_side_strips(sides, s, run, side, p, m);
        lemma_holds(side_strips(sides, s, run, 0, p, m), side_strips(sides, s, run, 1, p, m), x);
        lemma_street_strips(sides, s, p, s.runs@.len() as int, run, x);
        lemma_holds(rest, street_strips(sides, s, p, s.runs@.len() as int), x);
    }
}

proof fn lemma_street_strip(sides: Sides, s: StreetReading, p: StripPriors, n: int, k: int) -> (at: (int, int, int))
    requires
        0 <= k < street_strips(sides, s, p, n).len(),
    ensures
        0 <= at.0 < n,
        s.runs@[at.0].run.grade,
        at.1 == 0 || at.1 == 1,
        0 <= at.2 < reading_stops(sides, s, s.runs@[at.0], p).len() - 1,
        strip_at(sides, s, at.0, at.1, at.2, p) == Some(street_strips(sides, s, p, n)[k]),
    decreases n,
{
    let rest = street_strips(sides, s, p, n - 1);
    let more = run_strips(sides, s, n - 1, p);
    let all = street_strips(sides, s, p, n);
    if k < rest.len() {
        assert(all[k] == rest[k]);
        lemma_street_strip(sides, s, p, n - 1, k)
    } else {
        let j = k - rest.len();
        assert(all[k] == more[j]);
        let run = n - 1;
        let m = reading_stops(sides, s, s.runs@[run], p).len() - 1;
        let left = side_strips(sides, s, run, 0, p, m);
        let right = side_strips(sides, s, run, 1, p, m);
        lemma_side_strips(sides, s, run, 0, p, m);
        lemma_side_strips(sides, s, run, 1, p, m);
        if j < left.len() {
            assert(more[j] == left[j]);
            let i = choose|i: int| 0 <= i < m && (#[trigger] strip_at(sides, s, run, 0, i, p)) == Some(left[j]);
            (run, 0, i)
        } else {
            let q = j - left.len();
            assert(more[j] == right[q]);
            let i = choose|i: int| 0 <= i < m && (#[trigger] strip_at(sides, s, run, 1, i, p)) == Some(right[q]);
            (run, 1, i)
        }
    }
}

/// Every strip drawn is one owed to a side of a run on the ground.
pub proof fn every_strip_drawn_is_owed(sides: Sides, streets: Seq<StreetReading>, p: StripPriors, n: int, k: int)
    requires
        0 <= n <= streets.len(),
        0 <= k < all_strips(sides, streets, p, n).len(),
    ensures
        exists|t: int, run: int, side: int, i: int|
            {
                &&& 0 <= t < n
                &&& streets[t].half is Some
                &&& 0 <= run < streets[t].runs@.len()
                &&& streets[t].runs@[run].run.grade
                &&& side == 0 || side == 1
                &&& 0 <= i < reading_stops(sides, streets[t], streets[t].runs@[run], p).len() - 1
                &&& #[trigger] strip_at(sides, streets[t], run, side, i, p) == Some(all_strips(sides, streets, p, n)[k])
            },
    decreases n,
{
    let rest = all_strips(sides, streets, p, n - 1);
    let all = all_strips(sides, streets, p, n);
    if k < rest.len() {
        assert(all[k] == rest[k]);
        every_strip_drawn_is_owed(sides, streets, p, n - 1, k);
    } else {
        let s = streets[n - 1];
        let m = s.runs@.len() as int;
        let more = street_strips(sides, s, p, m);
        assert(all[k] == more[k - rest.len()]);
        let at = lemma_street_strip(sides, s, p, m, k - rest.len());
        assert(strip_at(sides, streets[n - 1], at.0, at.1, at.2, p) == Some(all[k]));
    }
}

/// A side is asked for a full strip where the street is given one or a stretch
/// of it is claimed there, and for nothing elsewhere.
pub proof fn a_side_asks_for_a_full_strip_or_none(sides: Sides, s: StreetReading, side: u8, arc: int, p: StripPriors)
    ensures
        ({
            let spans = side_spans(sides, s.id, side, p.corner as int);
            let claimed = exists|k: int| 0 <= k < spans.len() && (#[trigger] spans[k]).0 <= arc <= spans[k].1;
            &&& s.synth || claimed ==> asked(sides, s, side, arc, p) == p.width
            &&& !s.synth && !claimed ==> asked(sides, s, side, arc, p) == 0
        }),
{
    let spans = side_spans(sides, s.id, side, p.corner as int);
    if exists|k: int| 0 <= k < spans.len() && (#[trigger] spans[k]).0 <= arc <= spans[k].1 {
        let k = choose|k: int| 0 <= k < spans.len() && (#[trigger] spans[k]).0 <= arc <= spans[k].1;
        assert(2 * spans[k].0 <= 2 * arc <= 2 * spans[k].1);
    }
}

// ---------------------------------------------------------------------------
// Stations.
// ---------------------------------------------------------------------------

proof fn lemma_bounds(spans: Seq<(i64, i64)>, n: int)
    requires
        0 <= n <= spans.len(),
    ensures
        bounds_of(spans, n).len() == 2 * n,
        forall|k: int| 0 <= k < n ==> #[trigger] bounds_of(spans, n)[2 * k] == spans[k].0,
        forall|k: int| 0 <= k < n ==> #[trigger] bounds_of(spans, n)[2 * k + 1] == spans[k].1,
    decreases n,
{
    if n > 0 {
        lemma_bounds(spans, n - 1);
        let rest = bounds_of(spans, n - 1);
        let all = bounds_of(spans, n);
        assert forall|k: int| 0 <= k < n implies #[trigger] all[2 * k] == spans[k].0 by {
            if k < n - 1 {
                assert(all[2 * k] == rest[2 * k]);
            }
        }
        assert forall|k: int| 0 <= k < n implies #[trigger] all[2 * k + 1] == spans[k].1 by {
            if k < n - 1 {
                assert(all[2 * k + 1] == rest[2 * k + 1]);
            }
        }
    }
}

/// A run is stationed at each of the street's own arcs inside it, and at each
/// end of a claim to either side inside it.
pub proof fn a_run_is_stationed_where_anything_changes(
    run: LevelRun,
    arcs: Seq<i64>,
    left: Seq<(i64, i64)>,
    right: Seq<(i64, i64)>,
    i: int,
)
    ensures
        ({
            let at = stations(run, arcs, left, right);
            &&& 0 <= i < arcs.len() && run.from < arcs[i] < run.to ==> at.contains(arcs[i])
            &&& 0 <= i < left.len() && run.from < left[i].0 < run.to ==> at.contains(left[i].0)
            &&& 0 <= i < left.len() && run.from < left[i].1 < run.to ==> at.contains(left[i].1)
            &&& 0 <= i < right.len() && run.from < right[i].0 < run.to ==> at.contains(right[i].0)
            &&& 0 <= i < right.len() && run.from < right[i].1 < run.to ==> at.contains(right[i].1)
        }),
{
    let own = inner_arcs(arcs, run.from as int, run.to as int, arcs.len() as int);
    let lb = bounds_of(left, left.len() as int);
    let rb = bounds_of(right, right.len() as int);
    let ends = lb + rb;
    let inner = inner_arcs(ends, run.from as int, run.to as int, ends.len() as int);
    let all = own + inner;
    lemma_inner_arcs(arcs, run.from as int, run.to as int, arcs.len() as int);
    lemma_inner_arcs(ends, run.from as int, run.to as int, ends.len() as int);
    lemma_bounds(left, left.len() as int);
    lemma_bounds(right, right.len() as int);
    lemma_ascending(all, all.len() as int);
    let at = stations(run, arcs, left, right);
    if 0 <= i < arcs.len() && run.from < arcs[i] < run.to {
        lemma_stationed(own, inner, arcs[i]);
    }
    if 0 <= i < left.len() {
        assert(ends[2 * i] == lb[2 * i]);
        assert(ends[2 * i + 1] == lb[2 * i + 1]);
        if run.from < left[i].0 < run.to {
            lemma_stationed(own, inner, left[i].0);
        }
        if run.from < left[i].1 < run.to {
            lemma_stationed(own, inner, left[i].1);
        }
    }
    if 0 <= i < right.len() {
        assert(ends[lb.len() + 2 * i] == rb[2 * i]);
        assert(ends[lb.len() + 2 * i + 1] == rb[2 * i + 1]);
        if run.from < right[i].0 < run.to {
            lemma_stationed(own, inner, right[i].0);
        }
        if run.from < right[i].1 < run.to {
            lemma_stationed(own, inner, right[i].1);
        }
    }
}

proof fn lemma_stationed(own: Seq<i64>, inner: Seq<i64>, x: i64)
    requires
        own.contains(x) || inner.contains(x),
    ensures
        ascending(own + inner, (own + inner).len() as int).contains(x),
{
    let all = own + inner;
    lemma_ascending(all, all.len() as int);
    if own.contains(x) {
        let k = choose|k: int| 0 <= k < own.len() && own[k] == x;
        assert(all[k] == x);
    } else {
        let k = choose|k: int| 0 <= k < inner.len() && inner[k] == x;
        assert(all[own.len() + k] == x);
    }
}

// ---------------------------------------------------------------------------
// What was built.
// ---------------------------------------------------------------------------

/// Strips that run forwards, those of one side one behind the other.
pub open spec fn run_on(strips: Seq<Strip>) -> bool {
    &&& forall|i: int| 0 <= i < strips.len() ==> (#[trigger] strips[i]).from <= strips[i].to
    &&& forall|i: int, j: int|
        0 <= i < j < strips.len() && (#[trigger] strips[i]).corridor == (#[trigger] strips[j]).corridor && strips[i].side
            == strips[j].side ==> strips[i].to <= strips[j].from
}

/// Whether a strip is of a street side.
pub open spec fn of_side(s: Strip, corridor: u32, side: u8) -> bool {
    s.corridor == corridor && s.side == side
}

proof fn lemma_built_from(strips: Seq<Strip>, corridor: u32, side: u8, eps: int, n: int, k: int) -> (at: (int, int))
    requires
        0 <= n <= strips.len(),
        0 <= k < built_of(strips, side_key(corridor, side), eps, n).len(),
    ensures
        0 <= at.0 <= at.1 < n,
        of_side(strips[at.0], corridor, side),
        of_side(strips[at.1], corridor, side),
        built_of(strips, side_key(corridor, side), eps, n)[k] == (strips[at.0].from, strips[at.1].to),
    decreases n,
{
    let key = side_key(corridor, side);
    let rest = built_of(strips, key, eps, n - 1);
    let s = strips[n - 1];
    crate::synth::walkway::claims::every_side_has_a_key_of_its_own(s.corridor, s.side, corridor, side);
    if k < rest.len() {
        let at = lemma_built_from(strips, corridor, side, eps, n - 1, k);
        if side_key(s.corridor, s.side) == key && k == rest.len() - 1 && s.from - rest.last().1 <= eps {
            (at.0, n - 1)
        } else {
            at
        }
    } else {
        (n - 1, n - 1)
    }
}

proof fn lemma_last_built(strips: Seq<Strip>, corridor: u32, side: u8, eps: int, n: int)
    requires
        0 < n <= strips.len(),
        run_on(strips),
        of_side(strips[n - 1], corridor, side),
        built_of(strips, side_key(corridor, side), eps, n - 1).len() > 0,
    ensures
        ({
            let last = built_of(strips, side_key(corridor, side), eps, n - 1).last();
            last.0 <= last.1 <= strips[n - 1].from
        }),
{
    let rest = built_of(strips, side_key(corridor, side), eps, n - 1);
    let (i, j) = lemma_built_from(strips, corridor, side, eps, n - 1, rest.len() - 1);
    assert(strips[j].to <= strips[n - 1].from);
    assert(strips[i].from <= strips[i].to);
    assert(strips[j].from <= strips[j].to);
    if i < j {
        assert(strips[i].to <= strips[j].from);
    }
}

proof fn lemma_built_holds(strips: Seq<Strip>, corridor: u32, side: u8, eps: int, n: int, i: int) -> (k: int)
    requires
        0 <= i < n <= strips.len(),
        run_on(strips),
        of_side(strips[i], corridor, side),
    ensures
        0 <= k < built_of(strips, side_key(corridor, side), eps, n).len(),
        built_of(strips, side_key(corridor, side), eps, n)[k].0 <= strips[i].from,
        strips[i].to <= built_of(strips, side_key(corridor, side), eps, n)[k].1,
    decreases n,
{
    let key = side_key(corridor, side);
    let rest = built_of(strips, key, eps, n - 1);
    let s = strips[n - 1];
    crate::synth::walkway::claims::every_side_has_a_key_of_its_own(s.corridor, s.side, corridor, side);
    assert(strips[n - 1].from <= strips[n - 1].to);
    if of_side(s, corridor, side) && rest.len() > 0 {
        lemma_last_built(strips, corridor, side, eps, n);
    }
    if i < n - 1 {
        lemma_built_holds(strips, corridor, side, eps, n - 1, i)
    } else if rest.len() > 0 && s.from - rest.last().1 <= eps {
        rest.len() - 1
    } else {
        rest.len() as int
    }
}

proof fn lemma_built_apart(strips: Seq<Strip>, corridor: u32, side: u8, eps: int, n: int, k: int)
    requires
        0 <= n <= strips.len(),
        run_on(strips),
        0 <= k < built_of(strips, side_key(corridor, side), eps, n).len() - 1,
    ensures
        built_of(strips, side_key(corridor, side), eps, n)[k].1 + eps < built_of(
            strips,
            side_key(corridor, side),
            eps,
            n,
        )[k + 1].0,
    decreases n,
{
    let rest = built_of(strips, side_key(corridor, side), eps, n - 1);
    if k < rest.len() - 1 {
        lemma_built_apart(strips, corridor, side, eps, n - 1, k);
    }
}

/// What is built of a street side holds every strip drawn on it, each inside one
/// stretch; a stretch begins and ends with strips of that side; and no two
/// stretches stand within `eps` of each other.
pub proof fn what_is_built_is_what_the_strips_cover(strips: Seq<Strip>, corridor: u32, side: u8, eps: int, n: int, x: int, y: int)
    requires
        0 <= n <= strips.len(),
        run_on(strips),
        0 <= eps,
    ensures
        ({
            let built = built_of(strips, side_key(corridor, side), eps, n);
            &&& 0 <= x < n && strips[x].corridor == corridor && strips[x].side == side ==> exists|k: int|
                0 <= k < built.len() && (#[trigger] built[k]).0 <= strips[x].from && strips[x].to <= built[k].1
            &&& 0 <= y < built.len() ==> exists|i: int, j: int|
                0 <= i <= j < n && (#[trigger] strips[i]).corridor == corridor && strips[i].side == side && (
                #[trigger] strips[j]).corridor == corridor && strips[j].side == side && built[y] == (
                    strips[i].from,
                    strips[j].to,
                )
            &&& 0 <= y < built.len() - 1 ==> built[y].1 + eps < built[y + 1].0
        }),
{
    let built = built_of(strips, side_key(corridor, side), eps, n);
    if 0 <= x < n && strips[x].corridor == corridor && strips[x].side == side {
        let k = lemma_built_holds(strips, corridor, side, eps, n, x);
        assert(built[k].0 <= strips[x].from);
    }
    if 0 <= y < built.len() {
        let (i, j) = lemma_built_from(strips, corridor, side, eps, n, y);
        assert(strips[i].corridor == corridor && strips[j].corridor == corridor);
    }
    if 0 <= y < built.len() - 1 {
        lemma_built_apart(strips, corridor, side, eps, n, y);
    }
}

} // verus!
