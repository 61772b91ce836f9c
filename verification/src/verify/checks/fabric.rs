//! Closure: wherever two drawn at-grade surfaces share a plan position and
//! differ in height past the contact band, a face spans the step.
use vstd::prelude::*;
use crate::arith::max;
use crate::text::{ends_with, has_suffix, is_name};
use crate::verify::{fresh, scored, Invariant, Metric, Note, Offender, Scores, Sense, Tally};
use crate::verify::checks::Options;
use crate::verify::scene::{below_of, find_below, Probe, RoadMesh};
use crate::verify::findings::{above, gathered, gathered_rows, Finding};

verus! {

/// Two at-grade surfaces further apart than this are a step something must
/// span.
pub const STACK_UM: i128 = 3_000_000;

/// Slack at each end of the interval a face must cover.
pub const SPAN_SLOP_UM: i128 = 750_000;

pub open spec fn surface(r: RoadMesh) -> bool {
    r.level == 0 && (r.class@ == "road_surface"@ || r.class@ == "rail_surface"@ || r.class@ == "walk_surface"@
        || r.class@ == "path_surface"@)
}

/// Whether a mesh is an at-grade surface band of any modality.
pub fn is_surface(r: &RoadMesh) -> (yes: bool)
    ensures
        yes == surface(*r),
{
    r.level == 0 && (is_name(&r.class, "road_surface") || is_name(&r.class, "rail_surface") || is_name(
        &r.class,
        "walk_surface",
    ) || is_name(&r.class, "path_surface"))
}

pub open spec fn closure(r: RoadMesh) -> bool {
    !ends_with(r.class@, "_rim"@)
}

/// Whether a mesh can close a vertical step: everything drawn but a rim.
pub fn is_closure(r: &RoadMesh) -> (yes: bool)
    ensures
        yes == closure(*r),
{
    !has_suffix(&r.class, "_rim")
}

/// Whether no span reaches into the heights between `a` and `b`.
pub open spec fn is_open(spans: Seq<(i64, i64)>, a: int, b: int) -> bool {
    forall|k: int| 0 <= k < spans.len() ==> (#[trigger] spans[k]).0 >= b || spans[k].1 <= a
}

/// Whether `v` is the height of the largest open interval between `lo` and
/// `hi`.
pub open spec fn is_largest_open(spans: Seq<(i64, i64)>, lo: int, hi: int, v: int) -> bool {
    &&& 0 <= v
    &&& v > 0 ==> exists|a: int, b: int| lo <= a <= b <= hi && b - a == v && #[trigger] is_open(spans, a, b)
    &&& forall|a: int, b: int| lo <= a < b <= hi && #[trigger] is_open(spans, a, b) ==> b - a <= v
}

/// Whether `v` is how much of the step from `lo` to `hi` nothing spans, with
/// the slop forgiven at each end.
pub open spec fn is_uncovered(spans: Seq<(i64, i64)>, lo: int, hi: int, v: int) -> bool {
    let a = lo + SPAN_SLOP_UM;
    let b = hi - SPAN_SLOP_UM;
    if b <= a {
        v == 0
    } else {
        is_largest_open(spans, a, b, v)
    }
}

/// How much of the step from `lo` to `hi` nothing spans.
pub open spec fn uncovered(spans: Seq<(i64, i64)>, lo: int, hi: int) -> int {
    choose|v: int| is_uncovered(spans, lo, hi, v)
}

/// At most one height is the largest open one.
pub proof fn the_uncovered_height_is_unique(spans: Seq<(i64, i64)>, lo: int, hi: int, v: int, w: int)
    requires
        is_uncovered(spans, lo, hi, v),
        is_uncovered(spans, lo, hi, w),
    ensures
        v == w,
{
}

/// Low spans first.
pub open spec fn by_low(spans: Seq<(i64, i64)>) -> bool {
    forall|i: int, j: int| 0 <= i < j < spans.len() ==> (#[trigger] spans[i]).0 <= (#[trigger] spans[j]).0
}

/// The same spans, whatever their order.
pub open spec fn same_spans(a: Seq<(i64, i64)>, b: Seq<(i64, i64)>) -> bool {
    &&& forall|i: int| 0 <= i < a.len() ==> b.contains(#[trigger] a[i])
    &&& forall|i: int| 0 <= i < b.len() ==> a.contains(#[trigger] b[i])
}

proof fn lemma_same_open(a: Seq<(i64, i64)>, b: Seq<(i64, i64)>, lo: int, hi: int)
    requires
        same_spans(a, b),
        is_open(a, lo, hi),
    ensures
        is_open(b, lo, hi),
{
    assert forall|k: int| 0 <= k < b.len() implies (#[trigger] b[k]).0 >= hi || b[k].1 <= lo by {
        assert(a.contains(b[k]));
        let i = choose|i: int| 0 <= i < a.len() && a[i] == b[k];
        assert(a[i].0 >= hi || a[i].1 <= lo);
    }
}

/// The spans, low ones first.
fn sorted(spans: &Vec<(i64, i64)>) -> (out: Vec<(i64, i64)>)
    ensures
        by_low(out@),
        same_spans(spans@, out@),
{
    let mut out: Vec<(i64, i64)> = Vec::new();
    let mut i: usize = 0;
    while i < spans.len()
        invariant
            i <= spans@.len(),
            out@.len() == i,
            by_low(out@),
            same_spans(spans@.take(i as int), out@),
        decreases spans@.len() - i,
    {
        let s: (i64, i64) = spans[i];
        let mut at: usize = out.len();
        while at > 0 && out[at - 1].0 > s.0
            invariant
                at <= out@.len(),
                by_low(out@),
                forall|k: int| at <= k < out@.len() ==> (#[trigger] out@[k]).0 > s.0,
            decreases at,
        {
            at = at - 1;
        }
        let ghost before = out@;
        out.insert(at, s);
        proof {
            let after = out@;
            let taken = spans@.take(i + 1);
            assert forall|a: int, b: int| 0 <= a < b < after.len() implies (#[trigger] after[a]).0 <= (
            #[trigger] after[b]).0 by {
                let x = if a < at {
                    a
                } else {
                    a - 1
                };
                let y = if b < at {
                    b
                } else {
                    b - 1
                };
                if a != at {
                    assert(after[a] == before[x]);
                }
                if b != at {
                    assert(after[b] == before[y]);
                }
                if a == at {
                } else if b == at {
                    assert(before[at - 1].0 <= s.0);
                    assert(before[x].0 <= before[at - 1].0);
                } else {
                    assert(before[x].0 <= before[y].0);
                }
            }
            assert forall|k: int| 0 <= k < taken.len() implies after.contains(#[trigger] taken[k]) by {
                if k < i {
                    assert(taken[k] == spans@.take(i as int)[k]);
                    let m = choose|m: int| 0 <= m < before.len() && before[m] == taken[k];
                    assert(after[if m < at {
                        m
                    } else {
                        m + 1
                    }] == taken[k]);
                } else {
                    assert(after[at as int] == taken[k]);
                }
            }
            assert forall|k: int| 0 <= k < after.len() implies taken.contains(#[trigger] after[k]) by {
                if k == at {
                    assert(taken[i as int] == after[k]);
                } else {
                    let m = if k < at {
                        k
                    } else {
                        k - 1
                    };
                    assert(before[m] == after[k]);
                    let t = choose|t: int| 0 <= t < i && spans@.take(i as int)[t] == before[m];
                    assert(taken[t] == after[k]);
                }
            }
        }
        i = i + 1;
    }
    assert(spans@.take(spans@.len() as int) =~= spans@);
    out
}

/// The largest part of the step from `lo` to `hi` no span covers, with the slop
/// forgiven at each end.
pub fn largest_uncovered(lo: i64, hi: i64, spans: &Vec<(i64, i64)>) -> (open: i128)
    ensures
        is_uncovered(spans@, lo as int, hi as int, open as int),
        open == uncovered(spans@, lo as int, hi as int),
{
    let low: i128 = lo as i128 + SPAN_SLOP_UM;
    let high: i128 = hi as i128 - SPAN_SLOP_UM;
    if high <= low {
        assert(is_uncovered(spans@, lo as int, hi as int, 0));
        proof {
            the_uncovered_height_is_unique(spans@, lo as int, hi as int, 0, uncovered(spans@, lo as int, hi as int));
        }
        return 0;
    }
    let s: Vec<(i64, i64)> = sorted(spans);
    let mut cursor: i128 = low;
    let mut worst: i128 = 0;
    let mut i: usize = 0;
    while i < s.len() && cursor < high
        invariant
            i <= s@.len(),
            low < high,
            low == lo + SPAN_SLOP_UM,
            high == hi - SPAN_SLOP_UM,
            by_low(s@),
            low <= cursor,
            cursor <= max(low as int, i64::MAX as int),
            0 <= worst <= high - low,
            forall|k: int| 0 <= k < i ==> (#[trigger] s@[k]).1 <= cursor,
            worst > 0 ==> exists|a: int, b: int|
                low <= a <= b <= high && b - a == worst && #[trigger] is_open(s@, a, b),
            forall|a: int, b: int| low <= a < b <= high && a < cursor && #[trigger] is_open(s@, a, b) ==> b - a <= worst,
        decreases s@.len() - i,
    {
        let a: i128 = s[i].0 as i128;
        let b: i128 = s[i].1 as i128;
        let ghost was = cursor;
        if a > cursor {
            let stop: i128 = if a < high { a } else { high };
            let gap: i128 = stop - cursor;
            if gap > worst {
                worst = gap;
            }
            proof {
                assert forall|k: int| 0 <= k < s@.len() implies (#[trigger] s@[k]).0 >= stop || s@[k].1 <= cursor by {
                    if k > i {
                        assert(s@[i as int].0 <= s@[k].0);
                    }
                }
                assert(is_open(s@, cursor as int, stop as int));
            }
        }
        if b > cursor {
            cursor = b;
        }
        proof {
            assert(s@[i as int].1 <= cursor);
            assert forall|x: int, y: int| low <= x < y <= high && x < cursor && #[trigger] is_open(s@, x, y) implies y - x
                <= worst by {
                if x >= was {
                    assert(s@[i as int].0 >= y || s@[i as int].1 <= x);
                }
            }
        }
        i = i + 1;
    }
    if cursor < high && high - cursor > worst {
        worst = high - cursor;
    }
    proof {
        if cursor < high {
            assert forall|k: int| 0 <= k < s@.len() implies (#[trigger] s@[k]).0 >= high || s@[k].1 <= cursor by {}
            assert(is_open(s@, cursor as int, high as int));
        }
        if worst > 0 {
            let (a, b) = choose|a: int, b: int|
                low <= a <= b <= high && b - a == worst && #[trigger] is_open(s@, a, b);
            lemma_flip(spans@, s@);
            lemma_same_open(s@, spans@, a, b);
        }
        assert forall|x: int, y: int| low <= x < y <= high && #[trigger] is_open(spans@, x, y) implies y - x <= worst by {
            lemma_same_open(spans@, s@, x, y);
        }
        assert(is_uncovered(spans@, lo as int, hi as int, worst as int));
        the_uncovered_height_is_unique(
            spans@,
            lo as int,
            hi as int,
            worst as int,
            uncovered(spans@, lo as int, hi as int),
        );
    }
    worst
}

proof fn lemma_flip(a: Seq<(i64, i64)>, b: Seq<(i64, i64)>)
    requires
        same_spans(a, b),
    ensures
        same_spans(b, a),
{
}

/// One sampled point of a surface band: what the meshes answer there, the
/// terrain's vertical span near it, and those of the buildings near it.
#[derive(Debug)]
pub struct FabricPoint {
    pub at: Probe,
    pub terrain: Option<(i64, i64)>,
    pub buildings: Vec<(i64, i64)>,
}

/// The spans of the first `n` road meshes that can close a step.
pub open spec fn road_spans(roads: Seq<RoadMesh>, p: Probe, n: int) -> Seq<(i64, i64)>
    decreases n,
{
    if n <= 0 {
        Seq::empty()
    } else {
        let rest = road_spans(roads, p, n - 1);
        match p.spans@[n - 1] {
            Some(s) if closure(roads[n - 1]) => rest.push(s),
            _ => rest,
        }
    }
}

/// Everything that can close a step at a point.
pub open spec fn closing_spans(roads: Seq<RoadMesh>, q: FabricPoint) -> Seq<(i64, i64)> {
    let drawn = road_spans(roads, q.at, roads.len() as int);
    (match q.terrain {
        Some(s) => drawn.push(s),
        None => drawn,
    }) + q.buildings@
}

/// How much of the step from `lo` to `hi` at a point no drawn mesh spans.
pub fn open_step(roads: &[RoadMesh], q: &FabricPoint, lo: i64, hi: i64) -> (open: i128)
    requires
        q.at.covers(roads@),
    ensures
        open == uncovered(closing_spans(roads@, *q), lo as int, hi as int),
        is_uncovered(closing_spans(roads@, *q), lo as int, hi as int, open as int),
{
    let mut spans: Vec<(i64, i64)> = Vec::new();
    let mut k: usize = 0;
    while k < roads.len()
        invariant
            k <= roads@.len(),
            q.at.covers(roads@),
            spans@ == road_spans(roads@, q.at, k as int),
        decreases roads@.len() - k,
    {
        if let Some(s) = q.at.spans[k] {
            if is_closure(&roads[k]) {
                spans.push(s);
            }
        }
        k = k + 1;
    }
    if let Some(s) = q.terrain {
        spans.push(s);
    }
    let ghost drawn = spans@;
    let mut b: usize = 0;
    while b < q.buildings.len()
        invariant
            b <= q.buildings@.len(),
            spans@ == drawn + q.buildings@.take(b as int),
        decreases q.buildings@.len() - b,
    {
        spans.push(q.buildings[b]);
        assert(q.buildings@.take(b + 1) =~= q.buildings@.take(b as int).push(q.buildings@[b as int]));
        b = b + 1;
    }
    assert(q.buildings@.take(q.buildings@.len() as int) =~= q.buildings@);
    assert(spans@ =~= closing_spans(roads@, *q));
    largest_uncovered(lo, hi, &spans)
}

pub open spec fn surfaces(roads: Seq<RoadMesh>) -> Seq<bool> {
    Seq::new(roads.len(), |k: int| surface(roads[k]))
}

/// What one point of surface `i` adds: nothing where it stands over no other,
/// a closed step inside the contact band, and else whatever nothing spans.
pub open spec fn point_scored(s: Scores, roads: Seq<RoadMesh>, i: int, q: FabricPoint, zoom: u8) -> Scores {
    let p = q.at;
    if !p.owned || p.ranges@[i] is None {
        s
    } else {
        let own = (p.ranges@[i]->0).1;
        match below_of(p, surfaces(roads), i, own as int, roads.len() as int) {
            None => s,
            Some(b) => {
                let below = (p.ranges@[b]->0).1;
                if own - below <= STACK_UM {
                    scored(s, 0, None)
                } else {
                    let open = uncovered(closing_spans(roads, q), below as int, own as int);
                    scored(
                        s,
                        open,
                        if open > STACK_UM {
                            Some(
                                Offender {
                                    place: p.place,
                                    zoom,
                                    value: open as i128,
                                    note: Note::OpenStep { upper: roads[i].class, own, lower: roads[b].class, below },
                                },
                            )
                        } else {
                            None
                        },
                    )
                }
            },
        }
    }
}

/// What the first `n` points of surface `i` add.
pub open spec fn mesh_scored(s: Scores, roads: Seq<RoadMesh>, i: int, points: Seq<FabricPoint>, zoom: u8, n: int) -> Scores
    decreases n,
{
    if n <= 0 {
        s
    } else {
        point_scored(mesh_scored(s, roads, i, points, zoom, n - 1), roads, i, points[n - 1], zoom)
    }
}

/// What the first `n` meshes add.
pub open spec fn meshes_scored(s: Scores, roads: Seq<RoadMesh>, samples: Seq<Vec<FabricPoint>>, zoom: u8, n: int) -> Scores
    decreases n,
{
    if n <= 0 {
        s
    } else {
        let rest = meshes_scored(s, roads, samples, zoom, n - 1);
        if surface(roads[n - 1]) {
            mesh_scored(rest, roads, n - 1, samples[n - 1]@, zoom, samples[n - 1]@.len() as int)
        } else {
            rest
        }
    }
}

pub open spec fn samples_fit(roads: Seq<RoadMesh>, samples: Seq<Vec<FabricPoint>>) -> bool {
    &&& samples.len() == roads.len()
    &&& forall|i: int, k: int|
        0 <= i < samples.len() && 0 <= k < samples[i]@.len() ==> (#[trigger] samples[i]@[k]).at.covers(roads)
}

/// A face reaching from below the step to above it closes it, whatever else
/// stands there.
pub proof fn a_face_over_the_whole_step_closes_it(spans: Seq<(i64, i64)>, lo: int, hi: int, k: int)
    requires
        0 <= k < spans.len(),
        spans[k].0 <= lo + SPAN_SLOP_UM,
        spans[k].1 >= hi - SPAN_SLOP_UM,
    ensures
        uncovered(spans, lo, hi) == 0,
{
    let a0 = lo + SPAN_SLOP_UM;
    let b0 = hi - SPAN_SLOP_UM;
    assert forall|a: int, b: int| a0 <= a < b <= b0 && #[trigger] is_open(spans, a, b) implies b - a <= 0 by {
        assert(spans[k].0 >= b || spans[k].1 <= a);
    }
    assert(is_uncovered(spans, lo, hi, 0));
    the_uncovered_height_is_unique(spans, lo, hi, 0, uncovered(spans, lo, hi));
}

/// A step nothing spans is open end to end, less the slop forgiven at each
/// end.
pub proof fn a_bare_step_is_open_end_to_end(lo: int, hi: int)
    requires
        lo + 2 * SPAN_SLOP_UM <= hi,
    ensures
        uncovered(Seq::empty(), lo, hi) == hi - lo - 2 * SPAN_SLOP_UM,
{
    let none = Seq::<(i64, i64)>::empty();
    let a0 = lo + SPAN_SLOP_UM;
    let b0 = hi - SPAN_SLOP_UM;
    assert(is_open(none, a0, b0));
    assert(is_uncovered(none, lo, hi, b0 - a0));
    the_uncovered_height_is_unique(none, lo, hi, b0 - a0, uncovered(none, lo, hi));
}

/// Drawing one more face never opens a step further.
pub proof fn another_face_never_opens_a_step(spans: Seq<(i64, i64)>, s: (i64, i64), lo: int, hi: int, v: int, w: int)
    requires
        is_uncovered(spans, lo, hi, v),
        is_uncovered(spans.push(s), lo, hi, w),
    ensures
        w <= v,
{
    let a0 = lo + SPAN_SLOP_UM;
    let b0 = hi - SPAN_SLOP_UM;
    let more = spans.push(s);
    if b0 > a0 && w > 0 {
        let (a, b) = choose|a: int, b: int| a0 <= a <= b <= b0 && b - a == w && #[trigger] is_open(more, a, b);
        assert forall|k: int| 0 <= k < spans.len() implies (#[trigger] spans[k]).0 >= b || spans[k].1 <= a by {
            assert(more[k] == spans[k]);
        }
        assert(is_open(spans, a, b));
    }
}

/// The fabric check.
#[derive(Debug)]
pub struct Fabric {
    pub closure: Tally,
}

impl Fabric {
    pub open spec fn well_formed(&self) -> bool {
        self.closure.well_formed()
    }

    pub fn new(opt: &Options) -> (out: Fabric)
        requires
            opt.worst_k < usize::MAX,
        ensures
            out.well_formed(),
            out.closure@ == fresh(opt.worst_k),
    {
        Fabric { closure: Tally::new(Sense::HigherIsWorse, opt.worst_k) }
    }

    /// Scores one point of surface `i`.
    fn visit_point(&mut self, roads: &[RoadMesh], kept: &Vec<bool>, i: usize, q: &FabricPoint, zoom: u8)
        requires
            old(self).well_formed(),
            i < roads@.len(),
            q.at.covers(roads@),
            kept@ == surfaces(roads@),
        ensures
            final(self).well_formed(),
            final(self).closure@ == point_scored(old(self).closure@, roads@, i as int, *q, zoom),
    {
        if !q.at.owned {
            return;
        }
        if let Some((_, own)) = q.at.ranges[i] {
            if let Some((b, below)) = find_below(&q.at, kept, i, own) {
                if own as i128 - below as i128 <= STACK_UM {
                    self.closure.record(0, None);
                    return;
                }
                let open: i128 = open_step(roads, q, below, own);
                let offender: Option<Offender> = if open > STACK_UM {
                    Some(
                        Offender {
                            place: q.at.place,
                            zoom,
                            value: open,
                            note: Note::OpenStep {
                                upper: roads[i].class.clone(),
                                own,
                                lower: roads[b].class.clone(),
                                below,
                            },
                        },
                    )
                } else {
                    None
                };
                self.closure.record(open, offender);
            }
        }
    }

    /// Scores one tile from the points each road mesh was sampled at.
    pub fn visit(&mut self, zoom: u8, roads: &[RoadMesh], samples: &[Vec<FabricPoint>])
        requires
            old(self).well_formed(),
            samples_fit(roads@, samples@),
        ensures
            final(self).well_formed(),
            final(self).closure@ == meshes_scored(old(self).closure@, roads@, samples@, zoom, roads@.len() as int),
    {
        let mut kept: Vec<bool> = Vec::new();
        let mut k: usize = 0;
        while k < roads.len()
            invariant
                k <= roads@.len(),
                kept@.len() == k,
                forall|i: int| 0 <= i < k ==> #[trigger] kept@[i] == surface(roads@[i]),
            decreases roads@.len() - k,
        {
            kept.push(is_surface(&roads[k]));
            k = k + 1;
        }
        assert(kept@ =~= surfaces(roads@));
        let mut i: usize = 0;
        while i < roads.len()
            invariant
                i <= roads@.len(),
                samples_fit(roads@, samples@),
                kept@ == surfaces(roads@),
                self.well_formed(),
                self.closure@ == meshes_scored(old(self).closure@, roads@, samples@, zoom, i as int),
            decreases roads@.len() - i,
        {
            if kept[i] {
                let points: &Vec<FabricPoint> = &samples[i];
                let ghost start = self.closure@;
                let mut v: usize = 0;
                while v < points.len()
                    invariant
                        v <= points@.len(),
                        i < roads@.len(),
                        points@ == samples@[i as int]@,
                        samples_fit(roads@, samples@),
                        kept@ == surfaces(roads@),
                        self.well_formed(),
                        self.closure@ == mesh_scored(start, roads@, i as int, points@, zoom, v as int),
                    decreases points@.len() - v,
                {
                    assert(samples@[i as int]@[v as int].at.covers(roads@));
                    self.visit_point(roads, &kept, i, &points[v], zoom);
                    v = v + 1;
                }
            }
            i = i + 1;
        }
    }

    /// What the finished metrics say.
    pub open spec fn reported(&self, out: Seq<Metric>) -> bool {
        &&& out.len() == 1
        &&& out[0].reports(
            "fabric.closure"@,
            Invariant::I9,
            STACK_UM as int,
            self.closure@.samples.len() == 0,
            self.closure@,
        )
    }

    pub fn finish(self) -> (out: Vec<Metric>)
        ensures
            self.reported(out@),
    {
        let skipped: bool = self.closure.dist.is_empty();
        let mut out: Vec<Metric> = Vec::new();
        out.push(Metric::close("fabric.closure", Invariant::I9, STACK_UM, skipped, self.closure));
        out
    }
}

/// Everything drawn near a point but rims can close a step there, and so can the
/// terrain and the buildings.
pub proof fn everything_but_a_rim_closes_a_step(roads: Seq<RoadMesh>, q: FabricPoint, k: int)
    requires
        q.at.spans@.len() == roads.len(),
    ensures
        0 <= k < roads.len() && !ends_with(roads[k].class@, "_rim"@) && q.at.spans@[k] is Some ==> closing_spans(
            roads,
            q,
        ).contains(q.at.spans@[k]->0),
        q.terrain matches Some(s) ==> closing_spans(roads, q).contains(s),
        0 <= k < q.buildings@.len() ==> closing_spans(roads, q).contains(q.buildings@[k]),
        0 <= k < closing_spans(roads, q).len() ==> {
            let s = closing_spans(roads, q)[k];
            ||| exists|j: int|
                0 <= j < roads.len() && !ends_with((#[trigger] roads[j]).class@, "_rim"@) && q.at.spans@[j] == Some(s)
            ||| q.terrain == Some(s)
            ||| q.buildings@.contains(s)
        },
{
    let n = roads.len() as int;
    let drawn = road_spans(roads, q.at, n);
    lemma_road_spans(roads, q.at, n, k);
    let ground = match q.terrain {
        Some(s) => drawn.push(s),
        None => drawn,
    };
    let all = closing_spans(roads, q);
    assert(all == ground + q.buildings@);
    if 0 <= k < n && !ends_with(roads[k].class@, "_rim"@) && q.at.spans@[k] is Some {
        let j = choose|j: int| 0 <= j < drawn.len() && drawn[j] == q.at.spans@[k]->0;
        assert(all[j] == drawn[j]);
    }
    if q.terrain is Some {
        assert(all[drawn.len() as int] == q.terrain->0);
    }
    if 0 <= k < q.buildings@.len() {
        assert(all[ground.len() + k] == q.buildings@[k]);
    }
    if 0 <= k < all.len() {
        if k < drawn.len() {
            assert(all[k] == drawn[k]);
        } else if k >= ground.len() {
            assert(q.buildings@[k - ground.len()] == all[k]);
        }
    }
}

proof fn lemma_road_spans(roads: Seq<RoadMesh>, p: Probe, n: int, k: int)
    requires
        0 <= n <= roads.len(),
    ensures
        0 <= k < n && !ends_with(roads[k].class@, "_rim"@) && p.spans@[k] is Some ==> road_spans(roads, p, n).contains(
            p.spans@[k]->0,
        ),
        0 <= k < road_spans(roads, p, n).len() ==> exists|j: int|
            0 <= j < n && !ends_with((#[trigger] roads[j]).class@, "_rim"@) && p.spans@[j] == Some(
                road_spans(roads, p, n)[k],
            ),
    decreases n,
{
    if n > 0 {
        lemma_road_spans(roads, p, n - 1, k);
        let rest = road_spans(roads, p, n - 1);
        let all = road_spans(roads, p, n);
        if closure(roads[n - 1]) && p.spans@[n - 1] is Some {
            assert(all[rest.len() as int] == p.spans@[n - 1]->0);
        }
        if 0 <= k < n - 1 && !ends_with(roads[k].class@, "_rim"@) && p.spans@[k] is Some {
            let j = choose|j: int| 0 <= j < rest.len() && rest[j] == p.spans@[k]->0;
            assert(all[j] == rest[j]);
        }
        if 0 <= k < all.len() {
            if k < rest.len() {
                assert(all[k] == rest[k]);
            } else {
                assert(!ends_with(roads[n - 1].class@, "_rim"@));
            }
        }
    }
}

/// What is uncovered of a step is its largest open part with three quarters of a
/// metre forgiven at each end; nothing of a step no higher than those.
pub proof fn what_is_uncovered_is_the_largest_open_part(spans: Seq<(i64, i64)>, lo: int, hi: int, v: int)
    requires
        is_uncovered(spans, lo, hi, v),
    ensures
        hi - lo <= 1_500_000 ==> v == 0,
        forall|a: int, b: int|
            lo + 750_000 <= a < b <= hi - 750_000 && #[trigger] is_open(spans, a, b) ==> b - a <= v,
        v > 0 ==> exists|a: int, b: int|
            lo + 750_000 <= a && b <= hi - 750_000 && b - a == v && #[trigger] is_open(spans, a, b),
{
}

/// What is found at a point a surface was sampled at, where the point is owned,
/// the surface answers there and stands over another: nothing within three
/// metres, and further off what of the step nothing spans, past the limit above
/// three metres.
pub open spec fn step_found(roads: Seq<RoadMesh>, i: int, q: FabricPoint, zoom: u8) -> Option<Finding> {
    let p = q.at;
    let own = (p.ranges@[i]->0).1;
    let under = below_of(p, surfaces(roads), i, own as int, roads.len() as int);
    if p.owned && p.ranges@[i] is Some && under is Some {
        let below = (p.ranges@[under->0]->0).1;
        if own - below <= 3_000_000 {
            Some(Finding { sample: 0, offender: None })
        } else {
            let open = uncovered(closing_spans(roads, q), below as int, own as int);
            above(
                open,
                3_000_000,
                Offender {
                    place: p.place,
                    zoom,
                    value: open as i128,
                    note: Note::OpenStep { upper: roads[i].class, own, lower: roads[under->0].class, below },
                },
            )
        }
    } else {
        None
    }
}

/// Whether a mesh is an at-grade surface band of a road, a railway, a walk or a
/// path.
pub open spec fn is_surface_band(r: RoadMesh) -> bool {
    r.level == 0 && (r.class@ == "road_surface"@ || r.class@ == "rail_surface"@ || r.class@ == "walk_surface"@ || r.class@
        == "path_surface"@)
}

pub open spec fn steps_found(roads: Seq<RoadMesh>, samples: Seq<Vec<FabricPoint>>, zoom: u8, rows: Seq<Seq<Option<Finding>>>) -> bool {
    &&& rows.len() == roads.len()
    &&& forall|i: int|
        0 <= i < roads.len() ==> (#[trigger] rows[i]).len() == if is_surface_band(roads[i]) {
            samples[i]@.len()
        } else {
            0
        }
    &&& forall|i: int, k: int|
        0 <= i < roads.len() && 0 <= k < rows[i].len() ==> #[trigger] rows[i][k] == step_found(
            roads,
            i,
            samples[i]@[k],
            zoom,
        )
}

/// Every point of every surface is measured.
pub proof fn every_surface_is_measured(s: Scores, roads: Seq<RoadMesh>, samples: Seq<Vec<FabricPoint>>, zoom: u8, rows: Seq<Seq<Option<Finding>>>, n: int)
    requires
        0 <= n <= roads.len(),
        steps_found(roads, samples, zoom, rows),
    ensures
        meshes_scored(s, roads, samples, zoom, n) == gathered_rows(s, rows, n),
    decreases n,
{
    if n > 0 {
        every_surface_is_measured(s, roads, samples, zoom, rows, n - 1);
        let i = n - 1;
        assert(rows[i].len() == if is_surface_band(roads[i]) {
            samples[i]@.len()
        } else {
            0
        });
        assert(is_surface_band(roads[i]) == surface(roads[i]));
        if is_surface_band(roads[i]) {
            lemma_steps_found(meshes_scored(s, roads, samples, zoom, n - 1), roads, samples, zoom, rows, i, rows[i].len() as int);
        }
    }
}

proof fn lemma_steps_found(s: Scores, roads: Seq<RoadMesh>, samples: Seq<Vec<FabricPoint>>, zoom: u8, rows: Seq<Seq<Option<Finding>>>, i: int, n: int)
    requires
        0 <= i < roads.len(),
        0 <= n <= rows[i].len(),
        steps_found(roads, samples, zoom, rows),
    ensures
        mesh_scored(s, roads, i, samples[i]@, zoom, n) == gathered(s, rows[i], n),
    decreases n,
{
    if n > 0 {
        lemma_steps_found(s, roads, samples, zoom, rows, i, n - 1);
        assert(rows[i][n - 1] == step_found(roads, i, samples[i]@[n - 1], zoom));
    }
}

} // verus!
