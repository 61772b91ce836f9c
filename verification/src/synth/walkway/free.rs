//! The bands for the ways that witness no street: a path across a field, a farm
//! track, a footway leaving the network, and the stretches of an attached way
//! that run away from its street.
use vstd::prelude::*;
use crate::arith::{abs, clamp, distance, lemma_part_way, max, min, part_way, quot_of};
use crate::synth::walkway::claims::{
    by_start, merge_spans, merged_stretches_hold_every_claim, ordering_keeps_every_claim, side_key, sort_parts, spans_of,
    Attachment, Part, Way,
};
use crate::synth::walkway::strips::Built;
use crate::synth::walkway::Surface;

pub mod drawn;

verus! {

/// Station spacing along a free band.
pub const PATH_STATION_UM: i64 = 8_000_000;

/// Shortest free band worth a segment.
pub const MIN_FREE_UM: i64 = 400_000;

/// The furthest arc along a way or a street.
pub const MAX_ARC_UM: i64 = 1_000_000_000_000_000;

pub open spec fn arc_fits(a: i64) -> bool {
    -MAX_ARC_UM <= a <= MAX_ARC_UM
}

/// What the free bands are drawn by.
#[derive(Clone, Copy, Debug, PartialEq, Eq, Structural)]
pub struct FreePriors {
    /// Widest gap a way's stretches merge across.
    pub corner: i64,
    /// Width of a walker's band and of a vehicle's.
    pub walk_width: u64,
    pub track_width: u64,
    /// Two stations closer than this are one.
    pub eps: i64,
}

/// One segment of a free band, by arc along its way.
#[derive(Clone, Copy, Debug, PartialEq, Eq, Structural)]
pub struct FreeSeg {
    pub way: usize,
    pub source: u64,
    pub from: i64,
    pub to: i64,
    pub width: u64,
    pub surface: Surface,
}

// ---------------------------------------------------------------------------
// What a strip already draws of a way.
// ---------------------------------------------------------------------------

/// The way's arc at a street's arc, between knots `k` and `k + 1` or later.
pub open spec fn lerp_from(knots: Seq<(i64, i64)>, at: int, k: int) -> int
    decreases knots.len() - k,
{
    if k < 0 || k + 1 >= knots.len() {
        knots.last().1 as int
    } else {
        let (a0, w0) = knots[k];
        let (a1, w1) = knots[k + 1];
        if at <= a1 {
            if a1 > a0 {
                part_way(w0 as int, w1 as int, at - a0, a1 - a0)
            } else {
                w0 as int
            }
        } else {
            lerp_from(knots, at, k + 1)
        }
    }
}

/// A piecewise-linear lookup over the knots, held at either end.
pub open spec fn lerped(knots: Seq<(i64, i64)>, at: int) -> int {
    if at <= knots[0].0 {
        knots[0].1 as int
    } else {
        lerp_from(knots, at, 0)
    }
}

pub open spec fn knots_fit(knots: Seq<(i64, i64)>) -> bool {
    forall|i: int| 0 <= i < knots.len() ==> arc_fits((#[trigger] knots[i]).0) && arc_fits(knots[i].1)
}

proof fn lemma_lerp_from(knots: Seq<(i64, i64)>, at: int, k: int)
    requires
        knots.len() > 0,
        knots_fit(knots),
        0 <= k < knots.len(),
        knots[k].0 < at,
    ensures
        -MAX_ARC_UM <= lerp_from(knots, at, k) <= MAX_ARC_UM,
    decreases knots.len() - k,
{
    if k + 1 < knots.len() {
        let (a0, w0) = knots[k];
        let (a1, w1) = knots[k + 1];
        if at <= a1 {
            lemma_part_way(w0 as int, w1 as int, at - a0, a1 - a0);
        } else {
            lemma_lerp_from(knots, at, k + 1);
        }
    }
}

/// The way's arc at a street's arc.
pub fn lerp_knots(knots: &Vec<(i64, i64)>, at: i64) -> (out: i64)
    requires
        knots@.len() > 0,
        knots_fit(knots@),
        arc_fits(at),
    ensures
        out == lerped(knots@, at as int),
        arc_fits(out),
{
    if at <= knots[0].0 {
        return knots[0].1;
    }
    let mut k: usize = 0;
    while k < knots.len() - 1
        invariant
            k < knots@.len(),
            knots_fit(knots@),
            arc_fits(at),
            knots@[k as int].0 < at,
            lerped(knots@, at as int) == lerp_from(knots@, at as int, k as int),
        decreases knots@.len() - k,
    {
        let (a0, w0): (i64, i64) = knots[k];
        let (a1, w1): (i64, i64) = knots[k + 1];
        if at <= a1 {
            let t: i128 = at as i128 - a0 as i128;
            let d: i128 = a1 as i128 - a0 as i128;
            let v: i128 = w1 as i128 - w0 as i128;
            proof {
                assert(-2 * MAX_ARC_UM <= v <= 2 * MAX_ARC_UM);
                assert(-(4 * MAX_ARC_UM * MAX_ARC_UM) <= v * t <= 4 * MAX_ARC_UM * MAX_ARC_UM) by (nonlinear_arith)
                    requires
                        -2 * MAX_ARC_UM <= v <= 2 * MAX_ARC_UM,
                        0 <= t <= 2 * MAX_ARC_UM,
                ;
                assert(MAX_ARC_UM * MAX_ARC_UM == 1_000_000_000_000_000_000_000_000_000_000) by (nonlinear_arith);
                lemma_part_way(w0 as int, w1 as int, t as int, d as int);
            }
            let part: i128 = quot_of(v * t, d as u128);
            return (w0 as i128 + part) as i64;
        }
        k = k + 1;
    }
    knots[knots.len() - 1].1
}

/// Whether two attachments are one stretch: close both along the street and
/// along the way.
pub open spec fn linked(last: (i64, i64), a: Attachment, corner: int) -> bool {
    a.arc0 - last.0 <= corner && abs(a.walk0 - last.1) <= corner
}

/// What the first `n` built stretches draw of a group of knots, in the way's
/// arc.
pub open spec fn drawn_over(group: Seq<(i64, i64)>, spans: Seq<(i64, i64)>, n: int) -> Seq<(i64, i64)>
    decreases n,
{
    if n <= 0 {
        Seq::empty()
    } else {
        let rest = drawn_over(group, spans, n - 1);
        let lo = max(spans[n - 1].0 as int, group[0].0 as int);
        let hi = min(spans[n - 1].1 as int, group.last().0 as int);
        if hi <= lo {
            rest
        } else {
            let (w0, w1) = (lerped(group, lo), lerped(group, hi));
            rest.push((min(w0, w1) as i64, max(w0, w1) as i64))
        }
    }
}

/// What a finished group adds.
pub open spec fn flushed(group: Seq<(i64, i64)>, spans: Seq<(i64, i64)>) -> Seq<(i64, i64)> {
    if group.len() < 2 {
        Seq::empty()
    } else {
        drawn_over(group, spans, spans.len() as int)
    }
}

/// The group in the making, and what the finished ones drew.
pub struct Grouped {
    pub group: Seq<(i64, i64)>,
    pub out: Seq<(i64, i64)>,
}

/// What the first `n` attachments to one street side group into.
pub open spec fn grouped(atts: Seq<Attachment>, spans: Seq<(i64, i64)>, corner: int, n: int) -> Grouped
    decreases n,
{
    if n <= 0 {
        Grouped { group: Seq::empty(), out: Seq::empty() }
    } else {
        let g = grouped(atts, spans, corner, n - 1);
        let a = atts[n - 1];
        if g.group.len() > 0 && !linked(g.group.last(), a, corner) {
            Grouped {
                group: seq![(a.arc0, a.walk0), (a.arc1, a.walk1)],
                out: g.out + flushed(g.group, spans),
            }
        } else {
            Grouped { group: g.group.push((a.arc0, a.walk0)).push((a.arc1, a.walk1)), out: g.out }
        }
    }
}

/// The first `n` attachments of a way that are to a street side.
pub open spec fn on_side(attached: Seq<Attachment>, key: u64, n: int) -> Seq<Attachment>
    decreases n,
{
    if n <= 0 {
        Seq::empty()
    } else {
        let rest = on_side(attached, key, n - 1);
        let a = attached[n - 1];
        if side_key(a.host, a.side) == key {
            rest.push(a)
        } else {
            rest
        }
    }
}

/// Where an attachment goes among the first `n`: behind every one that starts
/// no later.
pub open spec fn att_rank(atts: Seq<Attachment>, arc: i64, n: int) -> int
    decreases n,
{
    if n <= 0 {
        0
    } else {
        let before = att_rank(atts, arc, n - 1);
        if before == n - 1 && atts[n - 1].arc0 <= arc {
            n
        } else {
            before
        }
    }
}

/// The first `n` attachments by where they start along the street.
pub open spec fn atts_by_start(atts: Seq<Attachment>, n: int) -> Seq<Attachment>
    decreases n,
{
    if n <= 0 {
        Seq::empty()
    } else {
        let rest = atts_by_start(atts, n - 1);
        rest.insert(att_rank(rest, atts[n - 1].arc0, rest.len() as int), atts[n - 1])
    }
}

/// How many of the first `n` keys are below `key`.
pub open spec fn key_rank(keys: Seq<u64>, key: u64, n: int) -> int
    decreases n,
{
    if n <= 0 {
        0
    } else {
        key_rank(keys, key, n - 1) + if keys[n - 1] < key {
            1int
        } else {
            0
        }
    }
}

/// The street sides of the first `n` attachments, in order, each once.
pub open spec fn keys_of(attached: Seq<Attachment>, n: int) -> Seq<u64>
    decreases n,
{
    if n <= 0 {
        Seq::empty()
    } else {
        let rest = keys_of(attached, n - 1);
        let key = side_key(attached[n - 1].host, attached[n - 1].side);
        if rest.contains(key) {
            rest
        } else {
            rest.insert(key_rank(rest, key, rest.len() as int), key)
        }
    }
}

/// What one street side draws of a way.
pub open spec fn drawn_by_side(attached: Seq<Attachment>, built: Built, key: u64, corner: int) -> Seq<(i64, i64)> {
    let mine = on_side(attached, key, attached.len() as int);
    let atts = atts_by_start(mine, mine.len() as int);
    let spans = built.on(key);
    let g = grouped(atts, spans, corner, atts.len() as int);
    if spans.len() == 0 {
        Seq::empty()
    } else {
        g.out + flushed(g.group, spans)
    }
}

/// What the first `n` street sides draw of a way.
pub open spec fn drawn_by_sides(attached: Seq<Attachment>, built: Built, keys: Seq<u64>, corner: int, n: int) -> Seq<(i64, i64)>
    decreases n,
{
    if n <= 0 {
        Seq::empty()
    } else {
        drawn_by_sides(attached, built, keys, corner, n - 1) + drawn_by_side(attached, built, keys[n - 1], corner)
    }
}

/// The stretches of a way, in its own arc, that the street strips draw.
pub open spec fn drawn_by_strips(attached: Seq<Attachment>, built: Built, corner: int) -> Seq<(i64, i64)> {
    let keys = keys_of(attached, attached.len() as int);
    drawn_by_sides(attached, built, keys, corner, keys.len() as int)
}

pub open spec fn attachment_fits(a: Attachment) -> bool {
    arc_fits(a.arc0) && arc_fits(a.arc1) && arc_fits(a.walk0) && arc_fits(a.walk1)
}

pub open spec fn attached_fit(attached: Seq<Attachment>) -> bool {
    forall|i: int| 0 <= i < attached.len() ==> attachment_fits(#[trigger] attached[i])
}

fn flush(group: &Vec<(i64, i64)>, spans: &Vec<(i64, i64)>, out: &mut Vec<(i64, i64)>)
    requires
        knots_fit(group@),
    ensures
        final(out)@ == old(out)@ + flushed(group@, spans@),
{
    if group.len() < 2 {
        assert(out@ =~= old(out)@ + flushed(group@, spans@));
        return;
    }
    let first: i64 = group[0].0;
    let last: i64 = group[group.len() - 1].0;
    let mut i: usize = 0;
    assert(out@ =~= old(out)@ + drawn_over(group@, spans@, 0));
    while i < spans.len()
        invariant
            i <= spans@.len(),
            group@.len() >= 2,
            first == group@[0].0,
            last == group@.last().0,
            knots_fit(group@),
            out@ == old(out)@ + drawn_over(group@, spans@, i as int),
        decreases spans@.len() - i,
    {
        let (b0, b1): (i64, i64) = spans[i];
        let lo: i64 = if b0 < first { first } else { b0 };
        let hi: i64 = if b1 < last { b1 } else { last };
        assert(arc_fits(first) && arc_fits(last)) by {
            assert(arc_fits(group@[0].0));
            assert(arc_fits(group@[group@.len() - 1].0));
        }
        if hi > lo {
            let w0: i64 = lerp_knots(group, lo);
            let w1: i64 = lerp_knots(group, hi);
            if w0 < w1 {
                out.push((w0, w1));
            } else {
                out.push((w1, w0));
            }
        }
        i = i + 1;
        assert(out@ =~= old(out)@ + drawn_over(group@, spans@, i as int));
    }
}

fn sides_of(attached: &Vec<Attachment>) -> (keys: Vec<u64>)
    ensures
        keys@ == keys_of(attached@, attached@.len() as int),
{
    let mut keys: Vec<u64> = Vec::new();
    let mut i: usize = 0;
    while i < attached.len()
        invariant
            i <= attached@.len(),
            keys@ == keys_of(attached@, i as int),
            keys@.len() <= i,
        decreases attached@.len() - i,
    {
        let key: u64 = attached[i].host as u64 * 256 + attached[i].side as u64;
        let mut rank: usize = 0;
        let mut known: bool = false;
        let mut k: usize = 0;
        while k < keys.len()
            invariant
                k <= keys@.len(),
                rank <= k,
                rank == key_rank(keys@, key, k as int),
                known == exists|j: int| 0 <= j < k && #[trigger] keys@[j] == key,
            decreases keys@.len() - k,
        {
            if keys[k] == key {
                known = true;
            }
            if keys[k] < key {
                rank = rank + 1;
            }
            k = k + 1;
        }
        assert(known == keys@.contains(key));
        if !known {
            keys.insert(rank, key);
        }
        i = i + 1;
    }
    keys
}

proof fn lemma_on_side_fits(attached: Seq<Attachment>, key: u64, n: int)
    requires
        attached_fit(attached),
        0 <= n <= attached.len(),
    ensures
        attached_fit(on_side(attached, key, n)),
    decreases n,
{
    if n > 0 {
        lemma_on_side_fits(attached, key, n - 1);
        assert(attachment_fits(attached[n - 1]));
    }
}

fn side_attachments(attached: &Vec<Attachment>, key: u64) -> (atts: Vec<Attachment>)
    requires
        attached_fit(attached@),
    ensures
        ({
            let mine = on_side(attached@, key, attached@.len() as int);
            atts@ == atts_by_start(mine, mine.len() as int)
        }),
        attached_fit(atts@),
{
    let mut mine: Vec<Attachment> = Vec::new();
    let mut i: usize = 0;
    while i < attached.len()
        invariant
            i <= attached@.len(),
            mine@ == on_side(attached@, key, i as int),
        decreases attached@.len() - i,
    {
        let a: Attachment = attached[i];
        if a.host as u64 * 256 + a.side as u64 == key {
            mine.push(a);
        }
        i = i + 1;
    }
    proof {
        lemma_on_side_fits(attached@, key, attached@.len() as int);
    }
    let mut atts: Vec<Attachment> = Vec::new();
    let mut m: usize = 0;
    while m < mine.len()
        invariant
            m <= mine@.len(),
            attached_fit(mine@),
            attached_fit(atts@),
            atts@ == atts_by_start(mine@, m as int),
            atts@.len() == m,
        decreases mine@.len() - m,
    {
        let a: Attachment = mine[m];
        assert(attachment_fits(mine@[m as int]));
        let mut rank: usize = 0;
        let mut k: usize = 0;
        while k < atts.len()
            invariant
                k <= atts@.len(),
                rank <= k,
                rank == att_rank(atts@, a.arc0, k as int),
            decreases atts@.len() - k,
        {
            if rank == k && atts[k].arc0 <= a.arc0 {
                rank = k + 1;
            }
            k = k + 1;
        }
        let ghost before = atts@;
        atts.insert(rank, a);
        proof {
            assert forall|i: int| 0 <= i < atts@.len() implies attachment_fits(#[trigger] atts@[i]) by {
                if i < rank {
                    assert(attachment_fits(before[i]));
                } else if i > rank {
                    assert(attachment_fits(before[i - 1]));
                }
            }
        }
        m = m + 1;
    }
    atts
}

fn push_side(attached: &Vec<Attachment>, built: &Built, key: u64, corner: i64, out: &mut Vec<(i64, i64)>)
    requires
        attached_fit(attached@),
    ensures
        final(out)@ == old(out)@ + drawn_by_side(attached@, *built, key, corner as int),
{
    let spans: Vec<(i64, i64)> = built.spans_on(key);
    if spans.len() == 0 {
        assert(out@ =~= old(out)@ + drawn_by_side(attached@, *built, key, corner as int));
        return;
    }
    let atts: Vec<Attachment> = side_attachments(attached, key);
    let mut group: Vec<(i64, i64)> = Vec::new();
    let mut i: usize = 0;
    assert(out@ =~= old(out)@ + grouped(atts@, spans@, corner as int, 0).out);
    while i < atts.len()
        invariant
            i <= atts@.len(),
            attached_fit(atts@),
            knots_fit(group@),
            group@ == grouped(atts@, spans@, corner as int, i as int).group,
            out@ == old(out)@ + grouped(atts@, spans@, corner as int, i as int).out,
        decreases atts@.len() - i,
    {
        let a: Attachment = atts[i];
        assert(attachment_fits(atts@[i as int]));
        let n: usize = group.len();
        let apart: bool = if n == 0 {
            false
        } else {
            let (arc, walk): (i64, i64) = group[n - 1];
            let along: bool = a.arc0 as i128 - arc as i128 <= corner as i128;
            let beside: bool = distance(a.walk0, walk) as i128 <= corner as i128;
            !(along && beside)
        };
        if apart {
            flush(&group, &spans, out);
            group = Vec::new();
        }
        group.push((a.arc0, a.walk0));
        group.push((a.arc1, a.walk1));
        i = i + 1;
        assert(group@ =~= grouped(atts@, spans@, corner as int, i as int).group);
        assert(out@ =~= old(out)@ + grouped(atts@, spans@, corner as int, i as int).out);
    }
    flush(&group, &spans, out);
    assert(out@ =~= old(out)@ + drawn_by_side(attached@, *built, key, corner as int));
}

/// The stretches of a way, in its own arc, that the street strips already draw.
pub fn covered_by_strip(attached: &Vec<Attachment>, built: &Built, corner: i64) -> (out: Vec<(i64, i64)>)
    requires
        attached_fit(attached@),
    ensures
        out@ == drawn_by_strips(attached@, *built, corner as int),
{
    let keys: Vec<u64> = sides_of(attached);
    let mut out: Vec<(i64, i64)> = Vec::new();
    let mut i: usize = 0;
    while i < keys.len()
        invariant
            i <= keys@.len(),
            attached_fit(attached@),
            out@ == drawn_by_sides(attached@, *built, keys@, corner as int, i as int),
        decreases keys@.len() - i,
    {
        push_side(attached, built, keys[i], corner, &mut out);
        i = i + 1;
    }
    out
}

// ---------------------------------------------------------------------------
// The stations of a stretch.
// ---------------------------------------------------------------------------

/// `n` stations after `at`, a step apart.
pub open spec fn ladder(at: int, step: int, n: int) -> Seq<i64>
    decreases n,
{
    if n <= 0 {
        Seq::empty()
    } else {
        ladder(at, step, n - 1).push((at + step * n) as i64)
    }
}

/// The stops after the straight up to `a` is filled.
pub open spec fn filled(stops: Seq<i64>, a: i64, step: int, eps: int) -> Seq<i64> {
    let prev = stops.last();
    let n = max((a - prev) / step, 0);
    let more = stops + ladder(prev as int, step, n);
    if a - more.last() > eps {
        more.push(a)
    } else {
        more
    }
}

/// The stops of a stretch over the first `n` points of its way.
pub open spec fn stops_along(arcs: Seq<i64>, from: i64, to: i64, step: int, eps: int, n: int) -> Seq<i64>
    decreases n,
{
    if n <= 0 {
        seq![from]
    } else {
        let rest = stops_along(arcs, from, to, step, eps, n - 1);
        if from < arcs[n - 1] < to {
            filled(rest, arcs[n - 1], step, eps)
        } else {
            rest
        }
    }
}

/// The stations of a stretch: every point of its way in between, and no two
/// further apart than a step.
pub open spec fn resampled(arcs: Seq<i64>, from: i64, to: i64, step: int, eps: int) -> Seq<i64> {
    filled(stops_along(arcs, from, to, step, eps, arcs.len() as int), to, step, eps)
}

/// Stations that rise, no two further apart than a step.
pub open spec fn stepped(stops: Seq<i64>, step: int) -> bool {
    &&& forall|i: int|
        0 <= i < stops.len() - 1 ==> (#[trigger] stops[i]) < stops[i + 1] <= stops[i] + step
}

proof fn lemma_ladder(at: int, step: int, n: int)
    requires
        0 <= n,
        0 < step,
        i64::MIN <= at,
        at + step * n <= i64::MAX,
    ensures
        ladder(at, step, n).len() == n,
        forall|k: int| 0 <= k < n ==> #[trigger] ladder(at, step, n)[k] == at + step * (k + 1),
    decreases n,
{
    if n > 0 {
        assert(step * (n - 1) <= step * n) by (nonlinear_arith)
            requires
                0 < step,
        ;
        assert(0 <= step * n) by (nonlinear_arith)
            requires
                0 < step,
                0 < n,
        ;
        lemma_ladder(at, step, n - 1);
        let rest = ladder(at, step, n - 1);
        assert forall|k: int| 0 <= k < n implies #[trigger] ladder(at, step, n)[k] == at + step * (k + 1) by {
            if k < n - 1 {
                assert(ladder(at, step, n)[k] == rest[k]);
            }
        }
    }
}

proof fn lemma_filled(stops: Seq<i64>, a: i64, step: int, eps: int)
    requires
        stops.len() > 0,
        stops.last() <= a,
        0 < step,
        0 <= eps,
        stepped(stops, step),
    ensures
        stepped(filled(stops, a, step, eps), step),
        filled(stops, a, step, eps).len() >= stops.len(),
        filled(stops, a, step, eps)[0] == stops[0],
        filled(stops, a, step, eps).last() <= a <= filled(stops, a, step, eps).last() + eps,
        ({
            let n = (a - stops.last()) / step;
            &&& 0 <= n
            &&& stops.last() + step * n <= a < stops.last() + step * n + step
        }),
{
    let prev = stops.last() as int;
    let n = (a - prev) / step;
    vstd::arithmetic::div_mod::lemma_fundamental_div_mod(a - prev, step);
    assert(0 <= n) by (nonlinear_arith)
        requires
            n == (a - prev) / step,
            a >= prev,
            step > 0,
    ;
    assert(prev + step * n <= a < prev + step * n + step);
    lemma_ladder(prev, step, n);
    let rungs = ladder(prev, step, n);
    let more = stops + rungs;
    let all = filled(stops, a, step, eps);
    assert(more.last() == prev + step * n) by {
        if n > 0 {
            assert(more.last() == rungs[n - 1]);
        } else {
            assert(step * n == 0) by (nonlinear_arith)
                requires
                    n == 0,
            ;
            assert(more =~= stops);
        }
    }
    assert forall|i: int| 0 <= i < all.len() - 1 implies (#[trigger] all[i]) < all[i + 1] <= all[i] + step by {
        let m = stops.len() as int;
        if i + 1 < m {
            assert(all[i] == stops[i]);
            assert(all[i + 1] == stops[i + 1]);
        } else if i + 1 < m + n {
            let k = i + 1 - m;
            assert(all[i + 1] == rungs[k]);
            assert(rungs[k] == prev + step * (k + 1));
            if k == 0 {
                assert(all[i] == prev);
                assert(step * (0 + 1) == step) by (nonlinear_arith);
            } else {
                assert(all[i] == rungs[k - 1]);
                assert(rungs[k - 1] == prev + step * k);
                assert(step * (k + 1) == step * k + step) by (nonlinear_arith);
            }
        } else {
            assert(all[i] == more.last());
            assert(all[i + 1] == a);
        }
    }
}

proof fn lemma_stops_along(arcs: Seq<i64>, from: i64, to: i64, step: int, eps: int, n: int)
    requires
        0 <= n <= arcs.len(),
        from <= to,
        0 < step,
        0 <= eps,
        forall|i: int, j: int| 0 <= i < j < arcs.len() ==> (#[trigger] arcs[i]) <= (#[trigger] arcs[j]),
    ensures
        ({
            let stops = stops_along(arcs, from, to, step, eps, n);
            &&& stops.len() > 0
            &&& stops[0] == from
            &&& stepped(stops, step)
            &&& from <= stops.last() <= to
            &&& stops.last() == from || exists|i: int| 0 <= i < n && stops.last() <= #[trigger] arcs[i]
        }),
    decreases n,
{
    if n > 0 {
        lemma_stops_along(arcs, from, to, step, eps, n - 1);
        let rest = stops_along(arcs, from, to, step, eps, n - 1);
        let a = arcs[n - 1];
        if from < a < to {
            if rest.last() != from {
                let i = choose|i: int| 0 <= i < n - 1 && rest.last() <= #[trigger] arcs[i];
                assert(arcs[i] <= arcs[n - 1]);
            }
            lemma_filled(rest, a, step, eps);
            assert(stops_along(arcs, from, to, step, eps, n).last() <= arcs[n - 1]);
            lemma_rising(stops_along(arcs, from, to, step, eps, n), step);
        }
    }
}

proof fn lemma_rising(stops: Seq<i64>, step: int)
    requires
        stops.len() > 0,
        stepped(stops, step),
    ensures
        stops[0] <= stops.last(),
    decreases stops.len(),
{
    if stops.len() > 1 {
        let less = stops.drop_last();
        assert forall|i: int| 0 <= i < less.len() - 1 implies (#[trigger] less[i]) < less[i + 1] <= less[i] + step by {
            assert(stops[i] < stops[i + 1] <= stops[i] + step);
        }
        lemma_rising(less, step);
        assert(stops[stops.len() - 2] < stops[stops.len() - 2 + 1]);
    }
}

/// A stretch is stationed from its start to within `eps` of its end, rising, no
/// two stations further apart than a step.
pub proof fn stations_are_no_further_apart_than_asked(arcs: Seq<i64>, from: i64, to: i64, step: int, eps: int)
    requires
        from <= to,
        0 < step,
        0 <= eps,
        forall|i: int, j: int| 0 <= i < j < arcs.len() ==> (#[trigger] arcs[i]) <= (#[trigger] arcs[j]),
    ensures
        ({
            let stops = resampled(arcs, from, to, step, eps);
            &&& stops.len() > 0
            &&& stops[0] == from
            &&& stepped(stops, step)
            &&& stops.last() <= to <= stops.last() + eps
        }),
{
    let n = arcs.len() as int;
    lemma_stops_along(arcs, from, to, step, eps, n);
    lemma_filled(stops_along(arcs, from, to, step, eps, n), to, step, eps);
}

fn fill(stops: &mut Vec<i64>, a: i64, step: i64, eps: i64)
    requires
        old(stops)@.len() > 0,
        0 < step,
    ensures
        final(stops)@ == filled(old(stops)@, a, step as int, eps as int),
        final(stops)@.len() > 0,
{
    let prev: i64 = stops[stops.len() - 1];
    let ghost before = stops@;
    let ghost n = max((a - prev) / (step as int), 0);
    let mut at: i64 = prev;
    let mut k: i128 = 0;
    assert(stops@ =~= before + ladder(prev as int, step as int, 0));
    proof {
        vstd::arithmetic::div_mod::lemma_fundamental_div_mod(a - prev, step as int);
    }
    while a as i128 - at as i128 >= step as i128
        invariant
            0 < step,
            0 <= k,
            before.len() > 0,
            at == prev + step * k,
            a - prev == step * ((a - prev) / (step as int)) + (a - prev) % (step as int),
            0 <= (a - prev) % (step as int) < step,
            k <= n || k == 0,
            n == max((a - prev) / (step as int), 0),
            stops@ == before + ladder(prev as int, step as int, k as int),
        decreases a - at,
    {
        proof {
            let q = (a - prev) / (step as int);
            assert(k < q) by (nonlinear_arith)
                requires
                    a - (prev + step * k) >= step,
                    a - prev == step * q + (a - prev) % (step as int),
                    (a - prev) % (step as int) < step,
                    0 < step,
            ;
            assert(q <= a - prev) by (nonlinear_arith)
                requires
                    a - prev == step * q + (a - prev) % (step as int),
                    0 <= (a - prev) % (step as int),
                    step >= 1,
                    q > 0,
            ;
            assert(step * (k + 1) == step * k + step) by (nonlinear_arith);
        }
        at = at + step;
        stops.push(at);
        k = k + 1;
        assert(stops@ =~= before + ladder(prev as int, step as int, k as int));
    }
    proof {
        let q = (a - prev) / (step as int);
        if q >= 0 {
            assert(k >= q) by (nonlinear_arith)
                requires
                    a - (prev + step * k) < step,
                    a - prev == step * q + (a - prev) % (step as int),
                    0 <= (a - prev) % (step as int),
                    0 < step,
            ;
        }
        assert(k == n);
    }
    let last: i64 = stops[stops.len() - 1];
    if a as i128 - last as i128 > eps as i128 {
        stops.push(a);
    }
}

/// The stations of a stretch of a way.
pub fn resample(arcs: &Vec<i64>, from: i64, to: i64, step: i64, eps: i64) -> (out: Vec<i64>)
    requires
        0 < step,
    ensures
        out@ == resampled(arcs@, from, to, step as int, eps as int),
        out@.len() > 0,
{
    let mut stops: Vec<i64> = Vec::new();
    stops.push(from);
    assert(stops@ =~= seq![from]);
    let mut i: usize = 0;
    while i < arcs.len()
        invariant
            i <= arcs@.len(),
            0 < step,
            stops@.len() > 0,
            stops@ == stops_along(arcs@, from, to, step as int, eps as int, i as int),
        decreases arcs@.len() - i,
    {
        if from < arcs[i] && arcs[i] < to {
            fill(&mut stops, arcs[i], step, eps);
        }
        i = i + 1;
    }
    fill(&mut stops, to, step, eps);
    stops
}

// ---------------------------------------------------------------------------
// The free bands.
// ---------------------------------------------------------------------------

/// How long a way is.
pub open spec fn way_total(way: Way) -> i64 {
    if way.arcs@.len() == 0 {
        0
    } else {
        way.arcs@.last()
    }
}

/// Whether a way is drawn as a band along its own line where no strip draws it.
pub open spec fn is_banded(way: Way) -> bool {
    !way.crosswalk && way.arcs@.len() >= 2 && way.earns_band && way_total(way) > 0
}

pub open spec fn as_parts(spans: Seq<(i64, i64)>) -> Seq<Part> {
    Seq::new(spans.len(), |i: int| Part { from: spans[i].0, to: spans[i].1, source: 0 })
}

/// What is taken of a way: what the strips draw, and what is not on the ground,
/// merged as the strips are.
pub open spec fn taken_of(way: Way, built: Built, corner: int) -> Seq<(i64, i64)> {
    let parts = as_parts(drawn_by_strips(way.attached@, built, corner) + way.elevated@);
    let sorted = by_start(parts, parts.len() as int);
    spans_of(sorted, corner, sorted.len() as int)
}

/// Whether a way is a street's pavement somewhere.
pub open spec fn continues_a_strip(way: Way, built: Built, corner: int) -> bool {
    let drawn = drawn_by_strips(way.attached@, built, corner);
    exists|k: int| 0 <= k < drawn.len() && (#[trigger] drawn[k]).0 < drawn[k].1
}

/// How far the first `n` taken stretches reach.
pub open spec fn taken_to(taken: Seq<(i64, i64)>, n: int) -> int
    decreases n,
{
    if n <= 0 {
        0
    } else {
        max(taken_to(taken, n - 1), taken[n - 1].1 as int)
    }
}

pub open spec fn stretch_pushed(free: Seq<(i64, i64)>, cursor: int, to: int, total: int) -> Seq<(i64, i64)> {
    let lo = min(cursor, total);
    let hi = clamp(to, lo, total);
    if hi - lo <= MIN_FREE_UM {
        free
    } else {
        free.push((lo as i64, hi as i64))
    }
}

/// The free stretches before the first `n` taken ones.
pub open spec fn free_before(taken: Seq<(i64, i64)>, total: int, n: int) -> Seq<(i64, i64)>
    decreases n,
{
    if n <= 0 {
        Seq::empty()
    } else {
        stretch_pushed(free_before(taken, total, n - 1), taken_to(taken, n - 1), taken[n - 1].0 as int, total)
    }
}

/// The stretches of a way that nothing takes.
pub open spec fn free_of(taken: Seq<(i64, i64)>, total: int) -> Seq<(i64, i64)> {
    let n = taken.len() as int;
    stretch_pushed(free_before(taken, total, n), taken_to(taken, n), total, total)
}

/// The width and material of a way's free bands.
pub open spec fn band_width(way: Way, p: FreePriors) -> u64 {
    if way.track {
        p.track_width
    } else {
        p.walk_width
    }
}

pub open spec fn band_surface(way: Way, built: Built, corner: int) -> Surface {
    if continues_a_strip(way, built, corner) {
        Surface::Walkway
    } else {
        Surface::Path
    }
}

/// The first `n` segments between a stretch's stops.
pub open spec fn stretch_segs(line: int, way: Way, built: Built, stops: Seq<i64>, p: FreePriors, n: int) -> Seq<FreeSeg>
    decreases n,
{
    if n <= 0 {
        Seq::empty()
    } else {
        stretch_segs(line, way, built, stops, p, n - 1).push(
            FreeSeg {
                way: line as usize,
                source: way.source,
                from: stops[n - 1],
                to: stops[n],
                width: band_width(way, p),
                surface: band_surface(way, built, p.corner as int),
            },
        )
    }
}

/// The segments of the first `n` free stretches of a way.
pub open spec fn way_segs(line: int, way: Way, built: Built, free: Seq<(i64, i64)>, p: FreePriors, n: int) -> Seq<FreeSeg>
    decreases n,
{
    if n <= 0 {
        Seq::empty()
    } else {
        let stops = resampled(way.arcs@, free[n - 1].0, free[n - 1].1, PATH_STATION_UM as int, p.eps as int);
        way_segs(line, way, built, free, p, n - 1) + stretch_segs(line, way, built, stops, p, stops.len() - 1)
    }
}

/// The free bands of the first `n` ways.
pub open spec fn all_segs(ways: Seq<Way>, built: Built, p: FreePriors, n: int) -> Seq<FreeSeg>
    decreases n,
{
    if n <= 0 {
        Seq::empty()
    } else {
        let rest = all_segs(ways, built, p, n - 1);
        let way = ways[n - 1];
        if is_banded(way) {
            let free = free_of(taken_of(way, built, p.corner as int), way_total(way) as int);
            rest + way_segs(n - 1, way, built, free, p, free.len() as int)
        } else {
            rest
        }
    }
}

/// Whether two stretches share no more than an end.
pub open spec fn disjoint(a: (i64, i64), b: (i64, i64)) -> bool {
    a.1 <= b.0 || b.1 <= a.0
}

pub open spec fn in_turn(taken: Seq<(i64, i64)>) -> bool {
    &&& forall|i: int| 0 <= i < taken.len() ==> (#[trigger] taken[i]).0 <= taken[i].1
    &&& forall|i: int, j: int| 0 <= i < j < taken.len() ==> (#[trigger] taken[i]).1 <= (#[trigger] taken[j]).0
}

proof fn lemma_taken_to(taken: Seq<(i64, i64)>, n: int)
    requires
        0 <= n <= taken.len(),
    ensures
        0 <= taken_to(taken, n) <= i64::MAX,
        forall|i: int| 0 <= i < n ==> (#[trigger] taken[i]).1 <= taken_to(taken, n),
    decreases n,
{
    if n > 0 {
        lemma_taken_to(taken, n - 1);
    }
}

proof fn lemma_free_before(taken: Seq<(i64, i64)>, total: int, n: int)
    requires
        0 <= n <= taken.len(),
        in_turn(taken),
        0 < total <= i64::MAX,
    ensures
        forall|i: int|
            0 <= i < free_before(taken, total, n).len() ==> {
                let f = #[trigger] free_before(taken, total, n)[i];
                0 <= f.0 && f.0 + MIN_FREE_UM < f.1 <= total
            },
        forall|i: int, j: int|
            0 <= i < free_before(taken, total, n).len() && 0 <= j < taken.len() ==> disjoint(
                #[trigger] free_before(taken, total, n)[i],
                #[trigger] taken[j],
            ),
    decreases n,
{
    if n > 0 {
        lemma_free_before(taken, total, n - 1);
        lemma_taken_to(taken, n - 1);
        let rest = free_before(taken, total, n - 1);
        let all = free_before(taken, total, n);
        assert forall|i: int, j: int| 0 <= i < all.len() && 0 <= j < taken.len() implies disjoint(
            #[trigger] all[i],
            #[trigger] taken[j],
        ) by {
            if i < rest.len() {
                assert(all[i] == rest[i]);
            } else if j < n - 1 {
                assert(taken[j].1 <= taken_to(taken, n - 1));
            } else if j > n - 1 {
                assert(taken[n - 1].0 <= taken[n - 1].1);
                assert(taken[n - 1].1 <= taken[j].0);
            }
        }
        assert forall|i: int| 0 <= i < all.len() implies ({
            let f = #[trigger] all[i];
            0 <= f.0 && f.0 + MIN_FREE_UM < f.1 <= total
        }) by {
            if i < rest.len() {
                assert(all[i] == rest[i]);
            }
        }
    }
}

/// A way is drawn once: its free stretches lie on it, and share no more than an
/// end with what a strip draws or a structure carries.
pub proof fn free_stretches_avoid_what_is_taken(taken: Seq<(i64, i64)>, total: int)
    requires
        in_turn(taken),
        0 < total <= i64::MAX,
    ensures
        forall|i: int|
            0 <= i < free_of(taken, total).len() ==> {
                let f = #[trigger] free_of(taken, total)[i];
                0 <= f.0 && f.0 + MIN_FREE_UM < f.1 <= total
            },
        forall|i: int, j: int|
            0 <= i < free_of(taken, total).len() && 0 <= j < taken.len() ==> disjoint(
                #[trigger] free_of(taken, total)[i],
                #[trigger] taken[j],
            ),
{
    let n = taken.len() as int;
    lemma_free_before(taken, total, n);
    lemma_taken_to(taken, n);
    let rest = free_before(taken, total, n);
    let all = free_of(taken, total);
    assert forall|i: int, j: int| 0 <= i < all.len() && 0 <= j < taken.len() implies disjoint(
        #[trigger] all[i],
        #[trigger] taken[j],
    ) by {
        if i < rest.len() {
            assert(all[i] == rest[i]);
        } else {
            assert(taken[j].1 <= taken_to(taken, n));
        }
    }
    assert forall|i: int| 0 <= i < all.len() implies ({
        let f = #[trigger] all[i];
        0 <= f.0 && f.0 + MIN_FREE_UM < f.1 <= total
    }) by {
        if i < rest.len() {
            assert(all[i] == rest[i]);
        }
    }
}

proof fn lemma_drawn_over_runs(group: Seq<(i64, i64)>, spans: Seq<(i64, i64)>, n: int)
    requires
        knots_fit(group),
        group.len() >= 1,
    ensures
        forall|i: int|
            0 <= i < drawn_over(group, spans, n).len() ==> (#[trigger] drawn_over(group, spans, n)[i]).0 <= drawn_over(
                group,
                spans,
                n,
            )[i].1,
    decreases n,
{
    if n > 0 {
        lemma_drawn_over_runs(group, spans, n - 1);
        let rest = drawn_over(group, spans, n - 1);
        let all = drawn_over(group, spans, n);
        let lo = max(spans[n - 1].0 as int, group[0].0 as int);
        let hi = min(spans[n - 1].1 as int, group.last().0 as int);
        if hi > lo {
            if lo > group[0].0 {
                lemma_lerp_from(group, lo, 0);
            } else {
                assert(arc_fits(group[0].1));
            }
            lemma_lerp_from(group, hi, 0);
            assert forall|i: int| 0 <= i < all.len() implies (#[trigger] all[i]).0 <= all[i].1 by {
                if i < rest.len() {
                    assert(all[i] == rest[i]);
                }
            }
        }
    }
}

proof fn lemma_grouped_runs(atts: Seq<Attachment>, spans: Seq<(i64, i64)>, corner: int, n: int)
    requires
        0 <= n <= atts.len(),
        attached_fit(atts),
    ensures
        knots_fit(grouped(atts, spans, corner, n).group),
        forall|i: int|
            0 <= i < grouped(atts, spans, corner, n).out.len() ==> (#[trigger] grouped(atts, spans, corner, n).out[i]).0
                <= grouped(atts, spans, corner, n).out[i].1,
    decreases n,
{
    if n > 0 {
        lemma_grouped_runs(atts, spans, corner, n - 1);
        let g = grouped(atts, spans, corner, n - 1);
        let h = grouped(atts, spans, corner, n);
        assert(attachment_fits(atts[n - 1]));
        if g.group.len() >= 2 {
            lemma_drawn_over_runs(g.group, spans, spans.len() as int);
        }
        assert forall|i: int| 0 <= i < h.out.len() implies (#[trigger] h.out[i]).0 <= h.out[i].1 by {
            if i < g.out.len() {
                assert(h.out[i] == g.out[i]);
            } else {
                assert(h.out[i] == flushed(g.group, spans)[i - g.out.len()]);
            }
        }
    }
}

proof fn lemma_atts_by_start_fit(atts: Seq<Attachment>, n: int)
    requires
        0 <= n <= atts.len(),
        attached_fit(atts),
    ensures
        attached_fit(atts_by_start(atts, n)),
        atts_by_start(atts, n).len() == n,
    decreases n,
{
    if n > 0 {
        lemma_atts_by_start_fit(atts, n - 1);
        let rest = atts_by_start(atts, n - 1);
        lemma_att_rank(rest, atts[n - 1].arc0, n - 1);
        let r = att_rank(rest, atts[n - 1].arc0, n - 1);
        let all = atts_by_start(atts, n);
        assert forall|i: int| 0 <= i < all.len() implies attachment_fits(#[trigger] all[i]) by {
            if i < r {
                assert(attachment_fits(rest[i]));
            } else if i > r {
                assert(attachment_fits(rest[i - 1]));
            } else {
                assert(attachment_fits(atts[n - 1]));
            }
        }
    }
}

proof fn lemma_att_rank(atts: Seq<Attachment>, arc: i64, n: int)
    requires
        0 <= n,
    ensures
        0 <= att_rank(atts, arc, n) <= n,
    decreases n,
{
    if n > 0 {
        lemma_att_rank(atts, arc, n - 1);
    }
}

proof fn lemma_sides_run(attached: Seq<Attachment>, built: Built, keys: Seq<u64>, corner: int, n: int)
    requires
        attached_fit(attached),
        0 <= n <= keys.len(),
    ensures
        forall|i: int|
            0 <= i < drawn_by_sides(attached, built, keys, corner, n).len() ==> (#[trigger] drawn_by_sides(
                attached,
                built,
                keys,
                corner,
                n,
            )[i]).0 <= drawn_by_sides(attached, built, keys, corner, n)[i].1,
    decreases n,
{
    if n > 0 {
        lemma_sides_run(attached, built, keys, corner, n - 1);
        let key = keys[n - 1];
        let rest = drawn_by_sides(attached, built, keys, corner, n - 1);
        let more = drawn_by_side(attached, built, key, corner);
        let mine = on_side(attached, key, attached.len() as int);
        lemma_on_side_fits(attached, key, attached.len() as int);
        lemma_atts_by_start_fit(mine, mine.len() as int);
        let atts = atts_by_start(mine, mine.len() as int);
        let spans = built.on(key);
        lemma_grouped_runs(atts, spans, corner, atts.len() as int);
        let g = grouped(atts, spans, corner, atts.len() as int);
        if g.group.len() >= 2 {
            lemma_drawn_over_runs(g.group, spans, spans.len() as int);
        }
        let all = drawn_by_sides(attached, built, keys, corner, n);
        assert forall|i: int| 0 <= i < all.len() implies (#[trigger] all[i]).0 <= all[i].1 by {
            if i < rest.len() {
                assert(all[i] == rest[i]);
            } else {
                let k = i - rest.len();
                assert(all[i] == more[k]);
                if k < g.out.len() {
                    assert(more[k] == g.out[k]);
                } else {
                    assert(more[k] == flushed(g.group, spans)[k - g.out.len()]);
                }
            }
        }
    }
}

/// What is taken of a way stands in turn, so its free stretches avoid it.
pub proof fn a_way_is_drawn_once(way: Way, built: Built, corner: int)
    requires
        attached_fit(way.attached@),
        0 <= corner,
        forall|i: int| 0 <= i < way.elevated@.len() ==> (#[trigger] way.elevated@[i]).0 <= way.elevated@[i].1,
        is_banded(way),
    ensures
        ({
            let taken = taken_of(way, built, corner);
            let free = free_of(taken, way_total(way) as int);
            &&& forall|i: int, j: int|
                0 <= i < free.len() && 0 <= j < taken.len() ==> disjoint(#[trigger] free[i], #[trigger] taken[j])
            &&& forall|i: int|
                0 <= i < free.len() ==> 0 <= (#[trigger] free[i]).0 && free[i].0 + MIN_FREE_UM < free[i].1 <= way_total(
                    way,
                )
        }),
{
    let keys = keys_of(way.attached@, way.attached@.len() as int);
    lemma_sides_run(way.attached@, built, keys, corner, keys.len() as int);
    let drawn = drawn_by_strips(way.attached@, built, corner);
    let spans = drawn + way.elevated@;
    let parts = as_parts(spans);
    let n = parts.len() as int;
    ordering_keeps_every_claim(parts, n);
    let sorted = by_start(parts, n);
    assert forall|i: int| 0 <= i < sorted.len() implies (#[trigger] sorted[i]).from <= sorted[i].to by {
        broadcast use vstd::seq_lib::group_to_multiset_ensures;

        assert(parts.take(n) =~= parts);
        assert(sorted.to_multiset().count(sorted[i]) > 0) by {
            assert(sorted.contains(sorted[i]));
        }
        assert(parts.contains(sorted[i]));
        let k = choose|k: int| 0 <= k < parts.len() && parts[k] == sorted[i];
        if k < drawn.len() {
            assert(spans[k] == drawn[k]);
        } else {
            assert(spans[k] == way.elevated@[k - drawn.len()]);
        }
    }
    merged_stretches_hold_every_claim(sorted, corner, sorted.len() as int);
    let taken = taken_of(way, built, corner);
    assert(in_turn(taken));
    free_stretches_avoid_what_is_taken(taken, way_total(way) as int);
}

pub open spec fn way_fits(way: Way) -> bool {
    attached_fit(way.attached@)
}

fn find_taken(way: &Way, built: &Built, corner: i64) -> (out: (Vec<(i64, i64)>, bool))
    requires
        way_fits(*way),
    ensures
        out.0@ == taken_of(*way, *built, corner as int),
        out.1 == continues_a_strip(*way, *built, corner as int),
{
    let drawn: Vec<(i64, i64)> = covered_by_strip(&way.attached, built, corner);
    let mut parts: Vec<Part> = Vec::new();
    let mut strip: bool = false;
    let mut i: usize = 0;
    while i < drawn.len()
        invariant
            i <= drawn@.len(),
            parts@ == as_parts(drawn@.take(i as int)),
            strip == exists|k: int| 0 <= k < i && (#[trigger] drawn@[k]).0 < drawn@[k].1,
        decreases drawn@.len() - i,
    {
        if drawn[i].0 < drawn[i].1 {
            strip = true;
            assert(drawn@[i as int].0 < drawn@[i as int].1);
        }
        parts.push(Part { from: drawn[i].0, to: drawn[i].1, source: 0 });
        i = i + 1;
        assert(parts@ =~= as_parts(drawn@.take(i as int)));
    }
    assert(drawn@.take(drawn@.len() as int) =~= drawn@);
    let mut e: usize = 0;
    assert(parts@ =~= as_parts(drawn@ + way.elevated@.take(0)));
    while e < way.elevated.len()
        invariant
            e <= way.elevated@.len(),
            parts@ == as_parts(drawn@ + way.elevated@.take(e as int)),
        decreases way.elevated@.len() - e,
    {
        parts.push(Part { from: way.elevated[e].0, to: way.elevated[e].1, source: 0 });
        e = e + 1;
        assert(parts@ =~= as_parts(drawn@ + way.elevated@.take(e as int)));
    }
    assert(way.elevated@.take(way.elevated@.len() as int) =~= way.elevated@);
    let sorted: Vec<Part> = sort_parts(&parts);
    (merge_spans(&sorted, corner), strip)
}

fn push_stretch(out: &mut Vec<(i64, i64)>, cursor: i64, to: i64, total: i64)
    requires
        0 <= cursor,
        0 < total,
    ensures
        final(out)@ == stretch_pushed(old(out)@, cursor as int, to as int, total as int),
{
    let lo: i64 = if cursor < total { cursor } else { total };
    let hi: i64 = if to < lo { lo } else if to > total { total } else { to };
    if hi - lo > MIN_FREE_UM {
        out.push((lo, hi));
    }
}

fn find_free(taken: &Vec<(i64, i64)>, total: i64) -> (out: Vec<(i64, i64)>)
    requires
        0 < total,
    ensures
        out@ == free_of(taken@, total as int),
{
    let mut out: Vec<(i64, i64)> = Vec::new();
    let mut cursor: i64 = 0;
    let mut i: usize = 0;
    while i < taken.len()
        invariant
            i <= taken@.len(),
            0 < total,
            0 <= cursor,
            cursor == taken_to(taken@, i as int),
            out@ == free_before(taken@, total as int, i as int),
        decreases taken@.len() - i,
    {
        push_stretch(&mut out, cursor, taken[i].0, total);
        if cursor < taken[i].1 {
            cursor = taken[i].1;
        }
        i = i + 1;
    }
    push_stretch(&mut out, cursor, total, total);
    out
}

/// The bands of every way along its own line, where no strip draws it.
pub fn free_bands(ways: &[Way], built: &Built, p: &FreePriors) -> (out: Vec<FreeSeg>)
    requires
        forall|i: int| 0 <= i < ways@.len() ==> way_fits(#[trigger] ways@[i]),
    ensures
        out@ == all_segs(ways@, *built, *p, ways@.len() as int),
{
    let mut out: Vec<FreeSeg> = Vec::new();
    let mut w: usize = 0;
    while w < ways.len()
        invariant
            w <= ways@.len(),
            forall|i: int| 0 <= i < ways@.len() ==> way_fits(#[trigger] ways@[i]),
            out@ == all_segs(ways@, *built, *p, w as int),
        decreases ways@.len() - w,
    {
        let way: &Way = &ways[w];
        assert(way_fits(ways@[w as int]));
        let points: usize = way.arcs.len();
        let total: i64 = if points == 0 { 0 } else { way.arcs[points - 1] };
        if !way.crosswalk && points >= 2 && way.earns_band && total > 0 {
            let (taken, strip): (Vec<(i64, i64)>, bool) = find_taken(way, built, p.corner);
            let free: Vec<(i64, i64)> = find_free(&taken, total);
            let width: u64 = if way.track { p.track_width } else { p.walk_width };
            let surface: Surface = if strip { Surface::Walkway } else { Surface::Path };
            let ghost before = out@;
            let mut f: usize = 0;
            assert(out@ =~= before + way_segs(w as int, *way, *built, free@, *p, 0));
            while f < free.len()
                invariant
                    f <= free@.len(),
                    w < ways@.len(),
                    *way == ways@[w as int],
                    width == band_width(*way, *p),
                    surface == band_surface(*way, *built, p.corner as int),
                    out@ == before + way_segs(w as int, *way, *built, free@, *p, f as int),
                decreases free@.len() - f,
            {
                let stops: Vec<i64> = resample(&way.arcs, free[f].0, free[f].1, PATH_STATION_UM, p.eps);
                let ghost was = out@;
                let mut i: usize = 0;
                assert(out@ =~= was + stretch_segs(w as int, *way, *built, stops@, *p, 0));
                while i < stops.len() - 1
                    invariant
                        i <= stops@.len() - 1,
                        stops@.len() > 0,
                        w < ways@.len(),
                        *way == ways@[w as int],
                        width == band_width(*way, *p),
                        surface == band_surface(*way, *built, p.corner as int),
                        out@ == was + stretch_segs(w as int, *way, *built, stops@, *p, i as int),
                    decreases stops@.len() - 1 - i,
                {
                    out.push(
                        FreeSeg { way: w, source: way.source, from: stops[i], to: stops[i + 1], width, surface },
                    );
                    i = i + 1;
                    assert(out@ =~= was + stretch_segs(w as int, *way, *built, stops@, *p, i as int));
                }
                f = f + 1;
                assert(out@ =~= before + way_segs(w as int, *way, *built, free@, *p, f as int));
            }
        }
        w = w + 1;
    }
    out
}

} // verus!
