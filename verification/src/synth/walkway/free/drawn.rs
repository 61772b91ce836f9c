//! What the free bands draw of a way, and what they leave.
use vstd::prelude::*;

use crate::arith::{max, min, part_way};
use crate::synth::walkway::claims::{
    by_start, holds, in_order, merged_stretches_hold_every_claim, ordering_keeps_every_claim,
    side_key, spans_of, Attachment, Part, Way,
};
use crate::synth::walkway::free::{
    a_way_is_drawn_once, all_segs, as_parts, atts_by_start, attached_fit, continues_a_strip, drawn_by_side,
    drawn_by_sides, drawn_by_strips, drawn_over, free_before, free_of, grouped, is_banded, keys_of, lemma_sides_run,
    lerp_from, lerped, on_side, resampled, stations_are_no_further_apart_than_asked, stepped, stretch_segs, taken_of,
    taken_to, way_segs, way_total, FreePriors, FreeSeg, MIN_FREE_UM, PATH_STATION_UM,
};
use crate::synth::walkway::strips::Built;
use crate::synth::walkway::Surface;

verus! {

/// A way whose stretches run forwards and whose points stand in order.
pub open spec fn way_runs(way: Way) -> bool {
    &&& attached_fit(way.attached@)
    &&& forall|i: int|
        0 <= i < way.elevated@.len() ==> (#[trigger] way.elevated@[i]).0 <= way.elevated@[i].1
    &&& forall|i: int, j: int|
        0 <= i < j < way.arcs@.len() ==> (#[trigger] way.arcs@[i]) <= (#[trigger] way.arcs@[j])
}

pub open spec fn priors_fit(p: FreePriors) -> bool {
    0 <= p.corner && 0 <= p.eps
}

proof fn lemma_within(stops: Seq<i64>, step: int, i: int, j: int)
    requires
        stepped(stops, step),
        0 <= i <= j < stops.len(),
    ensures
        stops[i] <= stops[j],
    decreases j - i,
{
    if i < j {
        lemma_within(stops, step, i, j - 1);
        assert(stops[j - 1] < stops[j - 1 + 1]);
    }
}

proof fn lemma_stretch_segs(line: int, way: Way, built: Built, stops: Seq<i64>, p: FreePriors, n: int)
    requires
        0 <= n < stops.len(),
    ensures
        stretch_segs(line, way, built, stops, p, n).len() == n,
        forall|i: int|
            0 <= i < n ==> ({
                let s = #[trigger] stretch_segs(line, way, built, stops, p, n)[i];
                &&& s.way == line as usize
                &&& s.source == way.source
                &&& s.from == stops[i]
                &&& s.to == stops[i + 1]
                &&& s.width == if way.track {
                    p.track_width
                } else {
                    p.walk_width
                }
                &&& s.surface == if continues_a_strip(way, built, p.corner as int) {
                    Surface::Walkway
                } else {
                    Surface::Path
                }
            }),
    decreases n,
{
    if n > 0 {
        lemma_stretch_segs(line, way, built, stops, p, n - 1);
        let rest = stretch_segs(line, way, built, stops, p, n - 1);
        let all = stretch_segs(line, way, built, stops, p, n);
        assert forall|i: int| 0 <= i < n implies ({
            let s = #[trigger] all[i];
            &&& s.way == line as usize
            &&& s.source == way.source
            &&& s.from == stops[i]
            &&& s.to == stops[i + 1]
            &&& s.width == if way.track {
                p.track_width
            } else {
                p.walk_width
            }
            &&& s.surface == if continues_a_strip(way, built, p.corner as int) {
                Surface::Walkway
            } else {
                Surface::Path
            }
        }) by {
            if i < n - 1 {
                assert(all[i] == rest[i]);
            }
        }
    }
}

/// Whether a segment is drawn of a way, inside one of the stretches.
pub open spec fn drawn_of(s: FreeSeg, line: int, way: Way, built: Built, p: FreePriors, free: Seq<(i64, i64)>, f: int) -> bool {
    &&& 0 <= f < free.len()
    &&& free[f].0 <= s.from < s.to <= free[f].1
    &&& s.way == line as usize
    &&& s.source == way.source
    &&& s.width == if way.track {
        p.track_width
    } else {
        p.walk_width
    }
    &&& s.surface == if continues_a_strip(way, built, p.corner as int) {
        Surface::Walkway
    } else {
        Surface::Path
    }
}

/// Whether some segment of a way reaches over an arc of it.
pub open spec fn reached(segs: Seq<FreeSeg>, line: int, x: int) -> bool {
    exists|i: int|
        0 <= i < segs.len() && (#[trigger] segs[i]).way == line && segs[i].from <= x <= segs[i].to
}

proof fn lemma_some_stop(stops: Seq<i64>, x: int, n: int) -> (i: int)
    requires
        2 <= n <= stops.len(),
        stops[0] <= x <= stops[n - 1],
    ensures
        0 <= i < n - 1,
        stops[i] <= x <= stops[i + 1],
    decreases n,
{
    if n == 2 {
        0
    } else if stops[n - 2] <= x {
        n - 2
    } else {
        lemma_some_stop(stops, x, n - 1)
    }
}

pub open spec fn free_runs(free: Seq<(i64, i64)>) -> bool {
    forall|f: int| 0 <= f < free.len() ==> (#[trigger] free[f]).0 + MIN_FREE_UM < free[f].1
}

proof fn lemma_way_seg(line: int, way: Way, built: Built, free: Seq<(i64, i64)>, p: FreePriors, n: int, i: int) -> (f: int)
    requires
        0 <= n <= free.len(),
        way_runs(way),
        priors_fit(p),
        free_runs(free),
        0 <= i < way_segs(line, way, built, free, p, n).len(),
    ensures
        drawn_of(way_segs(line, way, built, free, p, n)[i], line, way, built, p, free, f),
    decreases n,
{
    let rest = way_segs(line, way, built, free, p, n - 1);
    let all = way_segs(line, way, built, free, p, n);
    let (from, to) = free[n - 1];
    let stops = resampled(way.arcs@, from, to, PATH_STATION_UM as int, p.eps as int);
    assert(free[n - 1].0 + MIN_FREE_UM < free[n - 1].1);
    stations_are_no_further_apart_than_asked(way.arcs@, from, to, PATH_STATION_UM as int, p.eps as int);
    let m = stops.len() - 1;
    lemma_stretch_segs(line, way, built, stops, p, m);
    let more = stretch_segs(line, way, built, stops, p, m);
    assert(all == rest + more);
    if i < rest.len() {
        assert(all[i] == rest[i]);
        lemma_way_seg(line, way, built, free, p, n - 1, i)
    } else {
        let k = i - rest.len();
        assert(all[i] == more[k]);
        lemma_within(stops, PATH_STATION_UM as int, 0, k);
        lemma_within(stops, PATH_STATION_UM as int, k + 1, m);
        assert(stops[k] < stops[k + 1]);
        n - 1
    }
}

proof fn lemma_way_reached(line: int, way: Way, built: Built, free: Seq<(i64, i64)>, p: FreePriors, n: int, f: int, x: int)
    requires
        0 <= f < n <= free.len(),
        0 <= line <= usize::MAX,
        way_runs(way),
        priors_fit(p),
        p.eps <= MIN_FREE_UM,
        free_runs(free),
        free[f].0 <= x <= free[f].1 - p.eps,
    ensures
        reached(way_segs(line, way, built, free, p, n), line, x),
    decreases n,
{
    let rest = way_segs(line, way, built, free, p, n - 1);
    let all = way_segs(line, way, built, free, p, n);
    let (from, to) = free[n - 1];
    let stops = resampled(way.arcs@, from, to, PATH_STATION_UM as int, p.eps as int);
    assert(free[n - 1].0 + MIN_FREE_UM < free[n - 1].1);
    stations_are_no_further_apart_than_asked(way.arcs@, from, to, PATH_STATION_UM as int, p.eps as int);
    let m = stops.len() - 1;
    lemma_stretch_segs(line, way, built, stops, p, m);
    let more = stretch_segs(line, way, built, stops, p, m);
    assert(all == rest + more);
    if f < n - 1 {
        lemma_way_reached(line, way, built, free, p, n - 1, f, x);
        let i = choose|i: int|
            0 <= i < rest.len() && (#[trigger] rest[i]).way == line && rest[i].from <= x <= rest[i].to;
        assert(all[i] == rest[i]);
    } else {
        assert(stops.last() >= to - p.eps > from);
        let k = lemma_some_stop(stops, x, stops.len() as int);
        assert(more[k].from <= x <= more[k].to);
        assert(all[rest.len() + k] == more[k]);
    }
}

pub open spec fn free_stretches(way: Way, built: Built, p: FreePriors) -> Seq<(i64, i64)> {
    free_of(taken_of(way, built, p.corner as int), way_total(way) as int)
}

proof fn lemma_seg(ways: Seq<Way>, built: Built, p: FreePriors, n: int, i: int) -> (f: int)
    requires
        0 <= n <= ways.len() <= usize::MAX,
        priors_fit(p),
        forall|w: int| 0 <= w < ways.len() ==> way_runs(#[trigger] ways[w]),
        0 <= i < all_segs(ways, built, p, n).len(),
    ensures
        ({
            let s = all_segs(ways, built, p, n)[i];
            let w = s.way as int;
            &&& 0 <= w < n
            &&& is_banded(ways[w])
            &&& drawn_of(s, w, ways[w], built, p, free_stretches(ways[w], built, p), f)
        }),
    decreases n,
{
    let rest = all_segs(ways, built, p, n - 1);
    let all = all_segs(ways, built, p, n);
    let way = ways[n - 1];
    let free = free_stretches(way, built, p);
    if i < rest.len() {
        assert(all[i] == rest[i]);
        lemma_seg(ways, built, p, n - 1, i)
    } else {
        let more = way_segs(n - 1, way, built, free, p, free.len() as int);
        assert(way_runs(ways[n - 1]));
        a_way_is_drawn_once(way, built, p.corner as int);
        assert(all[i] == more[i - rest.len()]);
        lemma_way_seg(n - 1, way, built, free, p, free.len() as int, i - rest.len())
    }
}

proof fn lemma_reached(ways: Seq<Way>, built: Built, p: FreePriors, n: int, w: int, f: int, x: int)
    requires
        0 <= w < n <= ways.len() <= usize::MAX,
        priors_fit(p),
        p.eps <= MIN_FREE_UM,
        forall|w: int| 0 <= w < ways.len() ==> way_runs(#[trigger] ways[w]),
        is_banded(ways[w]),
        0 <= f < free_stretches(ways[w], built, p).len(),
        free_stretches(ways[w], built, p)[f].0 <= x <= free_stretches(ways[w], built, p)[f].1 - p.eps,
    ensures
        reached(all_segs(ways, built, p, n), w, x),
    decreases n,
{
    let rest = all_segs(ways, built, p, n - 1);
    let all = all_segs(ways, built, p, n);
    if w < n - 1 {
        lemma_reached(ways, built, p, n - 1, w, f, x);
        let i = choose|i: int|
            0 <= i < rest.len() && (#[trigger] rest[i]).way == w && rest[i].from <= x <= rest[i].to;
        assert(all[i] == rest[i]);
    } else {
        let way = ways[n - 1];
        let free = free_stretches(way, built, p);
        let more = way_segs(n - 1, way, built, free, p, free.len() as int);
        assert(way_runs(ways[n - 1]));
        a_way_is_drawn_once(way, built, p.corner as int);
        lemma_way_reached(n - 1, way, built, free, p, free.len() as int, f, x);
        let i = choose|i: int|
            0 <= i < more.len() && (#[trigger] more[i]).way == w && more[i].from <= x <= more[i].to;
        assert(all[rest.len() + i] == more[i]);
    }
}

proof fn lemma_taken_holds(way: Way, built: Built, corner: int)
    requires
        way_runs(way),
        0 <= corner,
    ensures
        ({
            let spans = drawn_by_strips(way.attached@, built, corner) + way.elevated@;
            let taken = taken_of(way, built, corner);
            &&& forall|k: int|
                0 <= k < spans.len() ==> exists|t: int|
                    0 <= t < taken.len() && (#[trigger] taken[t]).0 <= (#[trigger] spans[k]).0
                        && spans[k].1 <= taken[t].1
            &&& forall|t: int, x: int|
                0 <= t < taken.len() && (#[trigger] taken[t]).0 <= x <= taken[t].1
                    ==> #[trigger] claimed(spans, corner, x)
        }),
{
    broadcast use vstd::seq_lib::group_to_multiset_ensures;

    let keys = keys_of(way.attached@, way.attached@.len() as int);
    lemma_sides_run(way.attached@, built, keys, corner, keys.len() as int);
    let drawn = drawn_by_strips(way.attached@, built, corner);
    let spans = drawn + way.elevated@;
    let parts = as_parts(spans);
    let n = parts.len() as int;
    ordering_keeps_every_claim(parts, n);
    let sorted = by_start(parts, n);
    assert(parts.take(n) =~= parts);
    assert forall|i: int| 0 <= i < sorted.len() implies (#[trigger] sorted[i]).from <= sorted[i].to
        && parts.contains(sorted[i]) by {
        assert(sorted.to_multiset().count(sorted[i]) > 0) by {
            assert(sorted.contains(sorted[i]));
        }
        assert(parts.contains(sorted[i]));
        let k = choose|k: int| 0 <= k < parts.len() && parts[k] == sorted[i];
        if k < drawn.len() {
            assert(spans[k] == drawn[k]);
        } else {
            assert(spans[k] == way.elevated@[k - drawn.len()]);
        }
    }
    merged_stretches_hold_every_claim(sorted, corner, sorted.len() as int);
    let taken = taken_of(way, built, corner);
    assert forall|k: int| 0 <= k < spans.len() implies exists|t: int|
        0 <= t < taken.len() && (#[trigger] taken[t]).0 <= (#[trigger] spans[k]).0 && spans[k].1
            <= taken[t].1 by {
        let part = parts[k];
        assert(parts.contains(part));
        assert(parts.to_multiset().count(part) > 0);
        assert(sorted.contains(part));
        let i = choose|i: int| 0 <= i < sorted.len() && sorted[i] == part;
        let t = choose|t: int| 0 <= t < taken.len() && holds(#[trigger] taken[t], sorted[i]);
        assert(taken[t].0 <= spans[k].0 && spans[k].1 <= taken[t].1);
    }
    assert forall|t: int, x: int|
        0 <= t < taken.len() && (#[trigger] taken[t]).0 <= x <= taken[t].1 implies #[trigger] claimed(
        spans,
        corner,
        x,
    ) by {
        a_merged_stretch_is_claimed_throughout(sorted, corner, sorted.len() as int, t, x);
        if exists|i: int| 0 <= i < sorted.len() && (#[trigger] sorted[i]).from <= x <= sorted[i].to {
            let i = choose|i: int|
                0 <= i < sorted.len() && (#[trigger] sorted[i]).from <= x <= sorted[i].to;
            assert(parts.contains(sorted[i]));
            let k = choose|k: int| 0 <= k < parts.len() && parts[k] == sorted[i];
            assert(spans[k].0 <= x <= spans[k].1);
        } else {
            let (i, j) = choose|i: int, j: int|
                0 <= i < sorted.len() && 0 <= j < sorted.len() && (#[trigger] sorted[i]).to <= x <= (
                #[trigger] sorted[j]).from <= sorted[i].to + corner;
            assert(parts.contains(sorted[i]));
            assert(parts.contains(sorted[j]));
            let a = choose|k: int| 0 <= k < parts.len() && parts[k] == sorted[i];
            let b = choose|k: int| 0 <= k < parts.len() && parts[k] == sorted[j];
            assert(spans[a].1 <= x <= spans[b].0 <= spans[a].1 + corner);
        }
    }
}

/// Whether an arc lies on one of the stretches, or between two of them no
/// further apart than a corner.
pub open spec fn claimed(spans: Seq<(i64, i64)>, corner: int, x: int) -> bool {
    ||| exists|k: int| 0 <= k < spans.len() && (#[trigger] spans[k]).0 <= x <= spans[k].1
    ||| exists|a: int, b: int|
        0 <= a < spans.len() && 0 <= b < spans.len() && (#[trigger] spans[a]).1 <= x <= (
        #[trigger] spans[b]).0 <= spans[a].1 + corner
}

/// Merging makes up nothing: every arc of a merged stretch lies on a claim, or
/// between two no further apart than a corner.
pub proof fn a_merged_stretch_is_claimed_throughout(parts: Seq<Part>, corner: int, n: int, t: int, x: int)
    requires
        0 <= n <= parts.len(),
        0 <= corner,
        in_order(parts),
        forall|i: int| 0 <= i < parts.len() ==> (#[trigger] parts[i]).from <= parts[i].to,
        0 <= t < spans_of(parts, corner, n).len(),
        spans_of(parts, corner, n)[t].0 <= x <= spans_of(parts, corner, n)[t].1,
    ensures
        (exists|i: int| 0 <= i < n && (#[trigger] parts[i]).from <= x <= parts[i].to) || (exists|
            i: int,
            j: int,
        |
            0 <= i < n && 0 <= j < n && (#[trigger] parts[i]).to <= x <= (#[trigger] parts[j]).from
                <= parts[i].to + corner),
    decreases n,
{
    if n > 0 {
        let rest = spans_of(parts, corner, n - 1);
        let p = parts[n - 1];
        let joins = rest.len() > 0 && p.from - rest.last().1 <= corner;
        if p.from <= x <= p.to {
        } else if t < rest.len() && x <= rest[t].1 {
            if joins && t == rest.len() - 1 {
                assert(spans_of(parts, corner, n)[t].0 == rest[t].0);
            }
            a_merged_stretch_is_claimed_throughout(parts, corner, n - 1, t, x);
        } else {
            // Past the last stretch so far and short of the claim that joins it.
            assert(joins && t == rest.len() - 1);
            assert(rest.last().1 < x);
            let i = lemma_span_end(parts, corner, n - 1);
            assert(parts[i].to == rest.last().1);
            if x > p.to {
                assert(false);
            }
            assert(parts[i].to <= x <= parts[n - 1].from <= parts[i].to + corner);
        }
    }
}

proof fn lemma_span_end(parts: Seq<Part>, corner: int, n: int) -> (i: int)
    requires
        0 < n <= parts.len(),
        spans_of(parts, corner, n).len() > 0,
    ensures
        0 <= i < n,
        parts[i].to == spans_of(parts, corner, n).last().1,
    decreases n,
{
    let rest = spans_of(parts, corner, n - 1);
    let p = parts[n - 1];
    if rest.len() > 0 && p.from - rest.last().1 <= corner && rest.last().1 > p.to {
        assert(n - 1 > 0);
        lemma_span_end(parts, corner, n - 1)
    } else {
        n - 1
    }
}

// ---------------------------------------------------------------------------
// The laws.
// ---------------------------------------------------------------------------

/// No free segment of a way overlaps any stretch of it that is not on the
/// ground: the two share no more than an end.
pub proof fn no_free_segment_overlaps_what_is_elevated(ways: Seq<Way>, built: Built, p: FreePriors, i: int, e: int)
    requires
        ways.len() <= usize::MAX,
        priors_fit(p),
        forall|w: int| 0 <= w < ways.len() ==> way_runs(#[trigger] ways[w]),
        0 <= i < all_segs(ways, built, p, ways.len() as int).len(),
        0 <= e < ways[all_segs(ways, built, p, ways.len() as int)[i].way as int].elevated@.len(),
    ensures
        ({
            let s = all_segs(ways, built, p, ways.len() as int)[i];
            let w = ways[s.way as int];
            s.to <= w.elevated@[e].0 || w.elevated@[e].1 <= s.from
        }),
{
    let f = lemma_seg(ways, built, p, ways.len() as int, i);
    let s = all_segs(ways, built, p, ways.len() as int)[i];
    let way = ways[s.way as int];
    let corner = p.corner as int;
    assert(way_runs(way));
    lemma_taken_holds(way, built, corner);
    a_way_is_drawn_once(way, built, corner);
    let drawn = drawn_by_strips(way.attached@, built, corner);
    let spans = drawn + way.elevated@;
    assert(spans[drawn.len() + e] == way.elevated@[e]);
    let taken = taken_of(way, built, corner);
    let t = choose|t: int|
        0 <= t < taken.len() && (#[trigger] taken[t]).0 <= spans[drawn.len() + e].0 && spans[drawn.len()
            + e].1 <= taken[t].1;
    let free = free_stretches(way, built, p)[f];
    assert(free.1 <= taken[t].0 || taken[t].1 <= free.0);
}

/// Nor does it overlap a stretch that a street's strip draws.
pub proof fn no_free_segment_overlaps_a_strip(ways: Seq<Way>, built: Built, p: FreePriors, i: int, k: int)
    requires
        ways.len() <= usize::MAX,
        priors_fit(p),
        forall|w: int| 0 <= w < ways.len() ==> way_runs(#[trigger] ways[w]),
        0 <= i < all_segs(ways, built, p, ways.len() as int).len(),
        ({
            let s = all_segs(ways, built, p, ways.len() as int)[i];
            0 <= k < drawn_by_strips(ways[s.way as int].attached@, built, p.corner as int).len()
        }),
    ensures
        ({
            let s = all_segs(ways, built, p, ways.len() as int)[i];
            let d = drawn_by_strips(ways[s.way as int].attached@, built, p.corner as int)[k];
            s.to <= d.0 || d.1 <= s.from
        }),
{
    let f = lemma_seg(ways, built, p, ways.len() as int, i);
    let s = all_segs(ways, built, p, ways.len() as int)[i];
    let way = ways[s.way as int];
    let corner = p.corner as int;
    assert(way_runs(way));
    lemma_taken_holds(way, built, corner);
    a_way_is_drawn_once(way, built, corner);
    let drawn = drawn_by_strips(way.attached@, built, corner);
    let spans = drawn + way.elevated@;
    assert(spans[k] == drawn[k]);
    let taken = taken_of(way, built, corner);
    let t = choose|t: int|
        0 <= t < taken.len() && (#[trigger] taken[t]).0 <= spans[k].0 && spans[k].1 <= taken[t].1;
    let free = free_stretches(way, built, p)[f];
    assert(free.1 <= taken[t].0 || taken[t].1 <= free.0);
}

/// A segment is drawn only of a way that earns a band and is no crossing, runs
/// forwards along it, and has the way's feature, the width of its kind and the
/// material of what it continues.
pub proof fn a_free_segment_is_its_ways(ways: Seq<Way>, built: Built, p: FreePriors, i: int)
    requires
        ways.len() <= usize::MAX,
        priors_fit(p),
        forall|w: int| 0 <= w < ways.len() ==> way_runs(#[trigger] ways[w]),
        0 <= i < all_segs(ways, built, p, ways.len() as int).len(),
    ensures
        ({
            let s = all_segs(ways, built, p, ways.len() as int)[i];
            let w = ways[s.way as int];
            let strips = drawn_by_strips(w.attached@, built, p.corner as int);
            &&& 0 <= s.way < ways.len()
            &&& w.earns_band && !w.crosswalk && w.arcs@.len() >= 2
            &&& 0 <= s.from < s.to <= w.arcs@.last()
            &&& s.source == w.source
            &&& s.width == if w.track {
                p.track_width
            } else {
                p.walk_width
            }
            &&& s.surface == Surface::Walkway <==> exists|k: int|
                0 <= k < strips.len() && (#[trigger] strips[k]).0 < strips[k].1
            &&& s.surface == Surface::Walkway || s.surface == Surface::Path
        }),
{
    let f = lemma_seg(ways, built, p, ways.len() as int, i);
    let s = all_segs(ways, built, p, ways.len() as int)[i];
    let way = ways[s.way as int];
    assert(way_runs(way));
    a_way_is_drawn_once(way, built, p.corner as int);
    let free = free_stretches(way, built, p)[f];
    assert(0 <= free.0);
}

proof fn lemma_free_before_covers(taken: Seq<(i64, i64)>, total: int, n: int, x: int)
    requires
        0 <= n <= taken.len(),
        0 < total <= i64::MAX,
        0 <= x < taken_to(taken, n),
        x <= total,
    ensures
        spoken_for(taken, free_before(taken, total, n), total, x),
    decreases n,
{
    if n > 0 {
        let rest = free_before(taken, total, n - 1);
        let all = free_before(taken, total, n);
        let cursor = taken_to(taken, n - 1);
        if x < cursor {
            lemma_free_before_covers(taken, total, n - 1, x);
            if exists|f: int| 0 <= f < rest.len() && (#[trigger] rest[f]).0 <= x <= rest[f].1 {
                let f = choose|f: int| 0 <= f < rest.len() && (#[trigger] rest[f]).0 <= x <= rest[f].1;
                assert(all[f] == rest[f]);
            }
        } else {
            lemma_cursor(taken, n - 1);
            assert(x < taken[n - 1].1);
            if taken[n - 1].0 <= x {
                assert(taken[n - 1].0 <= x <= taken[n - 1].1);
            } else {
                let hi = min(taken[n - 1].0 as int, total);
                if hi - cursor <= MIN_FREE_UM {
                    assert(short_gap(taken, total, cursor, hi, x));
                } else {
                    assert(all[rest.len() as int] == (cursor as i64, hi as i64));
                    assert(all[rest.len() as int].0 <= x <= all[rest.len() as int].1);
                }
            }
        }
    }
}

proof fn lemma_cursor(taken: Seq<(i64, i64)>, n: int)
    requires
        0 <= n <= taken.len(),
    ensures
        0 <= taken_to(taken, n) <= i64::MAX,
        taken_to(taken, n) == 0 || exists|t: int| 0 <= t < n && (#[trigger] taken[t]).1 == taken_to(taken, n),
    decreases n,
{
    if n > 0 {
        lemma_cursor(taken, n - 1);
        if taken_to(taken, n - 1) < taken[n - 1].1 {
            assert(taken[n - 1].1 == taken_to(taken, n));
        }
    }
}

/// A gap too short for a band: from the way's start or the end of a taken
/// stretch, to the start of one or the way's end.
pub open spec fn short_gap(taken: Seq<(i64, i64)>, total: int, lo: int, hi: int, x: int) -> bool {
    &&& lo <= x <= hi <= lo + 400_000
    &&& lo == 0 || exists|t: int| 0 <= t < taken.len() && (#[trigger] taken[t]).1 == lo
    &&& hi == total || exists|t: int| 0 <= t < taken.len() && (#[trigger] taken[t]).0 == hi
}

/// Whether an arc is taken, free, or in a gap too short for a band.
pub open spec fn spoken_for(taken: Seq<(i64, i64)>, free: Seq<(i64, i64)>, total: int, x: int) -> bool {
    ||| exists|t: int| 0 <= t < taken.len() && (#[trigger] taken[t]).0 <= x <= taken[t].1
    ||| exists|f: int| 0 <= f < free.len() && (#[trigger] free[f]).0 <= x <= free[f].1
    ||| exists|lo: int, hi: int| #[trigger] short_gap(taken, total, lo, hi, x)
}

/// Nothing of a way is lost: every arc of it is taken, free, or in a gap too
/// short for a band.
pub proof fn every_arc_is_taken_or_free(taken: Seq<(i64, i64)>, total: int, x: int)
    requires
        0 < total <= i64::MAX,
        0 <= x <= total,
    ensures
        spoken_for(taken, free_of(taken, total), total, x),
{
    let n = taken.len() as int;
    let rest = free_before(taken, total, n);
    let all = free_of(taken, total);
    let cursor = taken_to(taken, n);
    if x < cursor {
        lemma_free_before_covers(taken, total, n, x);
        if exists|f: int| 0 <= f < rest.len() && (#[trigger] rest[f]).0 <= x <= rest[f].1 {
            let f = choose|f: int| 0 <= f < rest.len() && (#[trigger] rest[f]).0 <= x <= rest[f].1;
            assert(all[f] == rest[f]);
        }
    } else {
        lemma_cursor(taken, n);
        if total - cursor <= MIN_FREE_UM {
            assert(short_gap(taken, total, cursor, total, x));
        } else {
            assert(all[rest.len() as int] == (cursor as i64, total as i64));
            assert(all[rest.len() as int].0 <= x <= all[rest.len() as int].1);
        }
    }
}

/// Where a way earns a band, an arc of it that no strip and no structure claims
/// is drawn, but for what is too short for a band and the last of a stretch.
pub proof fn what_nothing_claims_is_drawn(ways: Seq<Way>, built: Built, p: FreePriors, w: int, x: int)
    requires
        ways.len() <= usize::MAX,
        priors_fit(p),
        p.eps <= MIN_FREE_UM,
        forall|w: int| 0 <= w < ways.len() ==> way_runs(#[trigger] ways[w]),
        0 <= w < ways.len(),
        ways[w].earns_band,
        !ways[w].crosswalk,
        ways[w].arcs@.len() >= 2,
        0 <= x <= ways[w].arcs@.last(),
        ways[w].arcs@.last() > 0,
        !claimed(
            drawn_by_strips(ways[w].attached@, built, p.corner as int) + ways[w].elevated@,
            p.corner as int,
            x,
        ),
    ensures
        ({
            let taken = taken_of(ways[w], built, p.corner as int);
            let total = ways[w].arcs@.last() as int;
            let free = free_of(taken, total);
            ||| reached(all_segs(ways, built, p, ways.len() as int), w, x)
            ||| exists|lo: int, hi: int| #[trigger] short_gap(taken, total, lo, hi, x)
            ||| exists|f: int|
                0 <= f < free.len() && (#[trigger] free[f]).1 - p.eps < x <= free[f].1
        }),
{
    let way = ways[w];
    assert(way_runs(way));
    let taken = taken_of(way, built, p.corner as int);
    let total = way_total(way) as int;
    lemma_taken_holds(way, built, p.corner as int);
    every_arc_is_taken_or_free(taken, total, x);
    let spans = drawn_by_strips(way.attached@, built, p.corner as int) + way.elevated@;
    if exists|t: int| 0 <= t < taken.len() && (#[trigger] taken[t]).0 <= x <= taken[t].1 {
        let t = choose|t: int| 0 <= t < taken.len() && (#[trigger] taken[t]).0 <= x <= taken[t].1;
        assert(claimed(spans, p.corner as int, x));
    }
    let free = free_of(taken, total);
    if exists|f: int| 0 <= f < free.len() && (#[trigger] free[f]).0 <= x <= free[f].1 {
        let f = choose|f: int| 0 <= f < free.len() && (#[trigger] free[f]).0 <= x <= free[f].1;
        assert(free_stretches(way, built, p)[f] == free[f]);
        if x <= free[f].1 - p.eps {
            lemma_reached(ways, built, p, ways.len() as int, w, f, x);
        }
    }
}

// ---------------------------------------------------------------------------
// What the strips draw.
// ---------------------------------------------------------------------------

/// Between two knots the way's arc keeps step with the street's; before the
/// first and past the last it stands still.
pub proof fn the_ways_arc_keeps_step_with_the_streets(knots: Seq<(i64, i64)>, at: int, k: int)
    requires
        0 <= k < knots.len(),
        forall|i: int, j: int| 0 <= i < j < knots.len() ==> (#[trigger] knots[i]).0 < (#[trigger] knots[j]).0,
    ensures
        lerped(knots, knots[k].0 as int) == knots[k].1,
        at <= knots[0].0 ==> lerped(knots, at) == knots[0].1,
        at >= knots.last().0 ==> lerped(knots, at) == knots.last().1,
        k + 1 < knots.len() && knots[k].0 <= at <= knots[k + 1].0 ==> lerped(knots, at) == part_way(
            knots[k].1 as int,
            knots[k + 1].1 as int,
            at - knots[k].0,
            knots[k + 1].0 - knots[k].0,
        ),
{
    lemma_lerp_at(knots, knots[k].0 as int, 0, k);
    lemma_lerp_past(knots, at, 0);
    if k + 1 < knots.len() && knots[k].0 <= at <= knots[k + 1].0 {
        if k == 0 && at == knots[0].0 {
            lemma_no_way(knots[0].1 as int, knots[1].1 as int, knots[1].0 - knots[0].0);
        } else if at == knots[k].0 {
            lemma_lerp_at(knots, at, 0, k);
            lemma_no_way(knots[k].1 as int, knots[k + 1].1 as int, knots[k + 1].0 - knots[k].0);
        } else {
            lemma_lerp_between(knots, at, 0, k);
        }
    }
}

proof fn lemma_no_way(a: int, b: int, d: int)
    requires
        d > 0,
    ensures
        part_way(a, b, 0, d) == a,
        part_way(a, b, d, d) == b,
{
    assert((b - a) * 0 == 0);
    crate::arith::a_part_of_the_way_is_in_proportion(a, b, 0, d);
    crate::arith::a_part_of_the_way_is_in_proportion(a, b, d, d);
}

proof fn lemma_lerp_between(knots: Seq<(i64, i64)>, at: int, from: int, k: int)
    requires
        0 <= from <= k < knots.len() - 1,
        forall|i: int, j: int| 0 <= i < j < knots.len() ==> (#[trigger] knots[i]).0 < (#[trigger] knots[j]).0,
        knots[k].0 < at <= knots[k + 1].0,
    ensures
        lerp_from(knots, at, from) == part_way(
            knots[k].1 as int,
            knots[k + 1].1 as int,
            at - knots[k].0,
            knots[k + 1].0 - knots[k].0,
        ),
    decreases k - from,
{
    if from < k {
        if from + 1 < k {
            assert(knots[from + 1].0 < knots[k].0);
        }
        lemma_lerp_between(knots, at, from + 1, k);
    }
}

proof fn lemma_lerp_at(knots: Seq<(i64, i64)>, at: int, from: int, k: int)
    requires
        0 <= from <= k < knots.len(),
        forall|i: int, j: int| 0 <= i < j < knots.len() ==> (#[trigger] knots[i]).0 < (#[trigger] knots[j]).0,
        at == knots[k].0,
    ensures
        from < k ==> lerp_from(knots, at, from) == knots[k].1,
    decreases k - from,
{
    if from + 1 < k {
        assert(knots[from + 1].0 < knots[k].0);
        lemma_lerp_at(knots, at, from + 1, k);
    } else if from < k {
        lemma_no_way(knots[from].1 as int, knots[k].1 as int, knots[k].0 - knots[from].0);
    }
}

proof fn lemma_lerp_past(knots: Seq<(i64, i64)>, at: int, from: int)
    requires
        0 <= from < knots.len(),
        forall|i: int, j: int| 0 <= i < j < knots.len() ==> (#[trigger] knots[i]).0 < (#[trigger] knots[j]).0,
    ensures
        at >= knots.last().0 && at > knots[from].0 ==> lerp_from(knots, at, from) == knots.last().1,
    decreases knots.len() - from,
{
    if from + 1 < knots.len() {
        if from + 1 == knots.len() - 1 && at == knots.last().0 {
            lemma_no_way(knots[from].1 as int, knots.last().1 as int, knots.last().0 - knots[from].0);
        } else {
            if from + 1 < knots.len() - 1 {
                assert(knots[from + 1].0 < knots[knots.len() - 1].0);
            }
            lemma_lerp_past(knots, at, from + 1);
        }
    }
}

/// Every built stretch that reaches over a group of attachments draws the part
/// of the way beside it, and nothing else is drawn.
pub proof fn a_built_stretch_draws_the_way_beside_it(group: Seq<(i64, i64)>, spans: Seq<(i64, i64)>, n: int)
    requires
        0 <= n <= spans.len(),
        group.len() > 0,
    ensures
        forall|k: int|
            0 <= k < n && max((#[trigger] spans[k]).0 as int, group[0].0 as int) < min(
                spans[k].1 as int,
                group.last().0 as int,
            ) ==> exists|d: int|
                0 <= d < drawn_over(group, spans, n).len() && beside(
                    group,
                    spans[k],
                    #[trigger] drawn_over(group, spans, n)[d],
                ),
        forall|d: int|
            0 <= d < drawn_over(group, spans, n).len() ==> exists|k: int|
                0 <= k < n && max((#[trigger] spans[k]).0 as int, group[0].0 as int) < min(
                    spans[k].1 as int,
                    group.last().0 as int,
                ) && beside(group, spans[k], #[trigger] drawn_over(group, spans, n)[d]),
    decreases n,
{
    if n > 0 {
        a_built_stretch_draws_the_way_beside_it(group, spans, n - 1);
        let rest = drawn_over(group, spans, n - 1);
        let all = drawn_over(group, spans, n);
        let lo = max(spans[n - 1].0 as int, group[0].0 as int);
        let hi = min(spans[n - 1].1 as int, group.last().0 as int);
        if lo < hi {
            assert(beside(group, spans[n - 1], all[rest.len() as int]));
        }
        assert forall|k: int|
            0 <= k < n && max((#[trigger] spans[k]).0 as int, group[0].0 as int) < min(
                spans[k].1 as int,
                group.last().0 as int,
            ) implies exists|d: int|
            0 <= d < all.len() && beside(group, spans[k], #[trigger] all[d]) by {
            if k < n - 1 {
                let d = choose|d: int| 0 <= d < rest.len() && beside(group, spans[k], #[trigger] rest[d]);
                assert(all[d] == rest[d]);
            }
        }
        assert forall|d: int| 0 <= d < all.len() implies exists|k: int|
            0 <= k < n && max((#[trigger] spans[k]).0 as int, group[0].0 as int) < min(
                spans[k].1 as int,
                group.last().0 as int,
            ) && beside(group, spans[k], #[trigger] all[d]) by {
            if d < rest.len() {
                assert(all[d] == rest[d]);
            } else {
                assert(beside(group, spans[n - 1], all[d]));
            }
        }
    }
}

/// Whether a stretch of a way is what lies beside a built stretch: between the
/// way's arcs where the two begin and end to run together.
pub open spec fn beside(group: Seq<(i64, i64)>, span: (i64, i64), d: (i64, i64)) -> bool {
    let at = lerped(group, max(span.0 as int, group[0].0 as int)) as i64;
    let end = lerped(group, min(span.1 as int, group.last().0 as int)) as i64;
    (d.0 == at && d.1 == end) || (d.0 == end && d.1 == at)
}


/// Whether an attachment is the only one a way has to its street side.
pub open spec fn alone_on_its_side(attached: Seq<Attachment>, i: int) -> bool {
    forall|j: int|
        0 <= j < attached.len() && j != i ==> {
            ||| (#[trigger] attached[j]).host != attached[i].host
            ||| attached[j].side != attached[i].side
        }
}

proof fn lemma_on_side_alone(attached: Seq<Attachment>, i: int, n: int)
    requires
        0 <= i < attached.len(),
        0 <= n <= attached.len(),
        alone_on_its_side(attached, i),
    ensures
        on_side(attached, side_key(attached[i].host, attached[i].side), n) == if i < n {
            seq![attached[i]]
        } else {
            Seq::<Attachment>::empty()
        },
    decreases n,
{
    if n > 0 {
        lemma_on_side_alone(attached, i, n - 1);
        let a = attached[n - 1];
        crate::synth::walkway::claims::every_side_has_a_key_of_its_own(
            a.host,
            a.side,
            attached[i].host,
            attached[i].side,
        );
        if n - 1 == i {
            assert(Seq::<Attachment>::empty().push(a) =~= seq![a]);
        } else {
            assert(attached[n - 1].host != attached[i].host || attached[n - 1].side != attached[i].side);
        }
    }
}

proof fn lemma_keys_of(attached: Seq<Attachment>, n: int)
    requires
        0 <= n <= attached.len(),
    ensures
        forall|i: int|
            0 <= i < n ==> keys_of(attached, n).contains(
                side_key((#[trigger] attached[i]).host, attached[i].side),
            ),
    decreases n,
{
    if n > 0 {
        lemma_keys_of(attached, n - 1);
        let rest = keys_of(attached, n - 1);
        let all = keys_of(attached, n);
        let key = side_key(attached[n - 1].host, attached[n - 1].side);
        let r = crate::synth::walkway::free::key_rank(rest, key, rest.len() as int);
        if !rest.contains(key) {
            lemma_key_rank(rest, key, rest.len() as int);
            assert(all[r] == key);
            assert forall|k: u64| rest.contains(k) implies all.contains(k) by {
                let at = choose|at: int| 0 <= at < rest.len() && rest[at] == k;
                assert(all[if at < r {
                    at
                } else {
                    at + 1
                }] == k);
            }
        }
        assert forall|i: int| 0 <= i < n implies all.contains(
            side_key((#[trigger] attached[i]).host, attached[i].side),
        ) by {
            if i < n - 1 {
                assert(rest.contains(side_key(attached[i].host, attached[i].side)));
            }
        }
    }
}

proof fn lemma_key_rank(keys: Seq<u64>, key: u64, n: int)
    requires
        0 <= n <= keys.len(),
    ensures
        0 <= crate::synth::walkway::free::key_rank(keys, key, n) <= n,
    decreases n,
{
    if n > 0 {
        lemma_key_rank(keys, key, n - 1);
    }
}

proof fn lemma_drawn_by_sides(attached: Seq<Attachment>, built: Built, keys: Seq<u64>, corner: int, n: int, k: int, d: (i64, i64))
    requires
        0 <= k < n <= keys.len(),
        drawn_by_side(attached, built, keys[k], corner).contains(d),
    ensures
        drawn_by_sides(attached, built, keys, corner, n).contains(d),
    decreases n,
{
    let rest = drawn_by_sides(attached, built, keys, corner, n - 1);
    let more = drawn_by_side(attached, built, keys[n - 1], corner);
    let all = drawn_by_sides(attached, built, keys, corner, n);
    if k < n - 1 {
        lemma_drawn_by_sides(attached, built, keys, corner, n - 1, k, d);
        let at = choose|at: int| 0 <= at < rest.len() && rest[at] == d;
        assert(all[at] == d);
    } else {
        let at = choose|at: int| 0 <= at < more.len() && more[at] == d;
        assert(all[rest.len() + at] == d);
    }
}

proof fn lemma_lone_group(a: Attachment, spans: Seq<(i64, i64)>, corner: int)
    ensures
        atts_by_start(seq![a], 1) == seq![a],
        grouped(seq![a], spans, corner, 1).group == seq![(a.arc0, a.walk0), (a.arc1, a.walk1)],
        grouped(seq![a], spans, corner, 1).out == Seq::<(i64, i64)>::empty(),
{
    let mine = seq![a];
    assert(atts_by_start(mine, 0) =~= Seq::<Attachment>::empty());
    assert(Seq::<Attachment>::empty().insert(0, a) =~= seq![a]);
    assert(atts_by_start(mine, 1) =~= seq![a]);
    assert(grouped(mine, spans, corner, 0).group.len() == 0);
    let g = grouped(mine, spans, corner, 1);
    assert(g.group =~= seq![(a.arc0, a.walk0), (a.arc1, a.walk1)]);
    assert(g.out =~= Seq::<(i64, i64)>::empty());
}

/// A way beside a street whose strip is built the whole way along it is drawn by
/// the strip: between the arcs at which it meets and leaves the street.
#[verifier::spinoff_prover]
#[verifier::rlimit(60)]
pub proof fn a_strip_draws_the_way_beside_it(attached: Seq<Attachment>, built: Built, corner: int, i: int, span: int)
    requires
        0 <= i < attached.len(),
        alone_on_its_side(attached, i),
        attached[i].arc0 < attached[i].arc1,
        ({
            let spans = built.on(side_key(attached[i].host, attached[i].side));
            &&& 0 <= span < spans.len()
            &&& spans[span].0 <= attached[i].arc0
            &&& attached[i].arc1 <= spans[span].1
        }),
    ensures
        exists|k: int|
            {
                let d = #[trigger] drawn_by_strips(attached, built, corner)[k];
                let a = attached[i];
                &&& 0 <= k < drawn_by_strips(attached, built, corner).len()
                &&& (d.0 == a.walk0 && d.1 == a.walk1) || (d.0 == a.walk1 && d.1 == a.walk0)
            },
{
    let a = attached[i];
    let key = side_key(a.host, a.side);
    let n = attached.len() as int;
    let keys = keys_of(attached, n);
    lemma_keys_of(attached, n);
    assert(keys.contains(key));
    let k = choose|k: int| 0 <= k < keys.len() && keys[k] == key;
    lemma_on_side_alone(attached, i, n);
    let mine = on_side(attached, key, n);
    assert(mine =~= seq![a]);
    let spans = built.on(key);
    lemma_lone_group(a, spans, corner);
    let g = grouped(seq![a], spans, corner, 1);
    a_built_stretch_draws_the_way_beside_it(g.group, spans, spans.len() as int);
    let over = drawn_over(g.group, spans, spans.len() as int);
    assert(max(spans[span].0 as int, g.group[0].0 as int) == a.arc0);
    assert(min(spans[span].1 as int, g.group.last().0 as int) == a.arc1);
    let d = choose|d: int| 0 <= d < over.len() && beside(g.group, spans[span], #[trigger] over[d]);
    the_ways_arc_keeps_step_with_the_streets(g.group, a.arc0 as int, 0);
    the_ways_arc_keeps_step_with_the_streets(g.group, a.arc1 as int, 1);
    let side = drawn_by_side(attached, built, key, corner);
    assert(side =~= over);
    assert(side.contains(over[d]));
    lemma_drawn_by_sides(attached, built, keys, corner, keys.len() as int, k, over[d]);
    let all = drawn_by_strips(attached, built, corner);
    let at = choose|at: int| 0 <= at < all.len() && all[at] == over[d];
    assert(all[at] == over[d]);
}

/// Of a way no strip is built beside, no strip draws anything.
pub proof fn no_strip_draws_nothing(attached: Seq<Attachment>, built: Built, corner: int)
    requires
        forall|key: u64| (#[trigger] built.on(key)).len() == 0,
    ensures
        drawn_by_strips(attached, built, corner).len() == 0,
{
    let keys = keys_of(attached, attached.len() as int);
    lemma_nothing_drawn(attached, built, keys, corner, keys.len() as int);
}

proof fn lemma_nothing_drawn(attached: Seq<Attachment>, built: Built, keys: Seq<u64>, corner: int, n: int)
    requires
        forall|key: u64| (#[trigger] built.on(key)).len() == 0,
        0 <= n <= keys.len(),
    ensures
        drawn_by_sides(attached, built, keys, corner, n).len() == 0,
    decreases n,
{
    if n > 0 {
        lemma_nothing_drawn(attached, built, keys, corner, n - 1);
        assert(built.on(keys[n - 1]).len() == 0);
    }
}

/// Two attachments to one side run on as one stretch only where the second
/// begins within a corner of the first's end, along the street and along the
/// way alike.
pub proof fn attachments_run_on_across_a_corner(a: Attachment, b: Attachment, spans: Seq<(i64, i64)>, corner: int)
    ensures
        ({
            let g = grouped(seq![a, b], spans, corner, 2);
            let close = b.arc0 - a.arc1 <= corner && -corner <= b.walk0 - a.walk1 <= corner;
            &&& close ==> g.group == seq![
                (a.arc0, a.walk0),
                (a.arc1, a.walk1),
                (b.arc0, b.walk0),
                (b.arc1, b.walk1),
            ]
            &&& !close ==> g.group == seq![(b.arc0, b.walk0), (b.arc1, b.walk1)]
            &&& !close ==> g.out == drawn_over(
                seq![(a.arc0, a.walk0), (a.arc1, a.walk1)],
                spans,
                spans.len() as int,
            )
        }),
{
    let atts = seq![a, b];
    assert(grouped(atts, spans, corner, 0).group.len() == 0);
    let one = grouped(atts, spans, corner, 1);
    assert(one.group =~= seq![(a.arc0, a.walk0), (a.arc1, a.walk1)]);
    let two = grouped(atts, spans, corner, 2);
    let close = b.arc0 - a.arc1 <= corner && -corner <= b.walk0 - a.walk1 <= corner;
    if close {
        assert(two.group =~= seq![
            (a.arc0, a.walk0),
            (a.arc1, a.walk1),
            (b.arc0, b.walk0),
            (b.arc1, b.walk1),
        ]);
    } else {
        assert(two.out =~= drawn_over(
            seq![(a.arc0, a.walk0), (a.arc1, a.walk1)],
            spans,
            spans.len() as int,
        ));
    }
}

} // verus!
