//! Is the paint on the asphalt, at the offset the cross-section put it at, and
//! above the ground a viewer can see it from?
use vstd::prelude::*;
use crate::arith::{abs, distance, max};
use crate::text::is_name;
use crate::verify::{fresh, scored, Invariant, Metric, Note, Offender, Scores, Sense, Tally};
use crate::verify::checks::Options;
use crate::verify::march::{near_kerb, near_kerb_of};
use crate::verify::scene::{any_paved, draws_asphalt, paved_at, paved_height, Probe, RoadMesh};

pub mod found;

verus! {

/// The painted width that names a stroke an edge line, and how far from it a
/// width may be.
pub const EDGE_LINE_WIDTH_UM: i64 = 150_000;

pub const MARKING_WIDTH_EPS_UM: u64 = 10_000;

/// How far outside the drawn asphalt a marking may lie.
pub const OFFSIDE_UM: i128 = 250_000;

/// Where the cross-section puts an edge line's near kerb, and how far from
/// there it may be.
pub const EDGE_INSET_EXPECTED_UM: i64 = 1_300_000;

pub const EDGE_INSET_SLOP_UM: i128 = 2_000_000;

/// How far inside its tile a marking is measured: surfaces end at the tile's
/// edge and markings past it.
pub const BORDER_MARGIN_UM: i64 = 8_000_000;

/// How far under the drawn terrain a stroke may sit.
pub const BURIED_UM: i128 = 1_000_000;

/// How far past a structure's own vertical range a stroke still rides it.
pub const RIDING_UM: i128 = 1_000_000;

/// The sample of a vertex standing on a band, and the threshold between it and
/// one that does not.
pub const DOUBLED: i128 = 1_000_000;

pub const DOUBLED_THRESHOLD: i128 = 500_000;

/// One vertex of a drawn stroke. `margin` is how far inside the tile it lies,
/// `clear` is the distance to the nearest asphalt edge, and the two sides
/// answer whether asphalt covers the points across the stroke.
#[derive(Debug)]
pub struct StrokeVertex {
    pub height: i64,
    pub at: Probe,
    pub margin: i64,
    pub clear: u64,
    pub left: Vec<bool>,
    pub right: Vec<bool>,
}

/// A drawn stroke and its painted width.
#[derive(Debug)]
pub struct Stroke {
    pub class: String,
    pub level: i64,
    pub width: i64,
    pub parts: Vec<Vec<StrokeVertex>>,
}

pub open spec fn stroke_fits(roads: Seq<RoadMesh>, l: Stroke) -> bool {
    forall|p: int, v: int|
        0 <= p < l.parts@.len() && 0 <= v < l.parts@[p]@.len() ==> (#[trigger] l.parts@[p]@[v]).at.covers(roads)
}

pub open spec fn walk_material(class: Seq<char>) -> bool {
    class == "walk_surface"@ || class == "walk_rim"@ || class == "path_surface"@ || class == "path_rim"@
}

/// Whether a class names drawn pedestrian pavement, a band or its rim.
pub fn is_walk_material(class: &String) -> (yes: bool)
    ensures
        yes == walk_material(class@),
{
    is_name(class, "walk_surface") || is_name(class, "walk_rim") || is_name(class, "path_surface") || is_name(
        class,
        "path_rim",
    )
}

pub open spec fn banded_class(class: Seq<char>) -> bool {
    ||| class == "footway"@
    ||| class == "path"@
    ||| class == "steps"@
    ||| class == "cycleway"@
    ||| class == "pedestrian"@
    ||| class == "track"@
}

/// Whether a class is drawn as a pedestrian band at the walk zooms.
pub fn is_banded_class(class: &String) -> (yes: bool)
    ensures
        yes == banded_class(class@),
{
    is_name(class, "footway") || is_name(class, "path") || is_name(class, "steps") || is_name(class, "cycleway")
        || is_name(class, "pedestrian") || is_name(class, "track")
}

pub open spec fn is_band(r: RoadMesh) -> bool {
    r.level == 0 && walk_material(r.class@)
}

pub open spec fn draws_bands(roads: Seq<RoadMesh>) -> bool {
    exists|k: int| 0 <= k < roads.len() && is_band(#[trigger] roads[k])
}

/// Whether a drawn pedestrian band covers a point.
pub open spec fn on_band(roads: Seq<RoadMesh>, p: Probe) -> bool {
    exists|k: int| 0 <= k < roads.len() && is_band(#[trigger] roads[k]) && p.heights@[k] is Some
}

/// Whether a structure carries a stroke at height `h`.
pub open spec fn rides_structure(roads: Seq<RoadMesh>, p: Probe, h: int) -> bool {
    exists|k: int|
        0 <= k < roads.len() && ((#[trigger] roads[k]).deck || roads[k].bore) && p.ranges@[k] is Some && (
        p.ranges@[k]->0).0 - RIDING_UM <= h <= (p.ranges@[k]->0).1 + RIDING_UM
}

pub open spec fn is_edge_line(width: int) -> bool {
    abs(width - EDGE_LINE_WIDTH_UM) < MARKING_WIDTH_EPS_UM
}

// ---------------------------------------------------------------------------
// What one vertex adds.
// ---------------------------------------------------------------------------

pub open spec fn doubled_vertex_scored(s: Scores, roads: Seq<RoadMesh>, class: String, v: StrokeVertex, zoom: u8) -> Scores {
    if !v.at.owned {
        s
    } else if on_band(roads, v.at) {
        scored(
            s,
            DOUBLED as int,
            Some(Offender { place: v.at.place, zoom, value: DOUBLED, note: Note::StrokeDoubled { class } }),
        )
    } else {
        scored(s, 0, None)
    }
}

pub open spec fn buried_vertex_scored(s: Scores, l: Stroke, v: StrokeVertex, zoom: u8) -> Scores {
    if !v.at.owned || v.at.terrain is None {
        s
    } else {
        let under = max(v.at.terrain->0 - v.height, 0);
        scored(
            s,
            under,
            if under > BURIED_UM {
                Some(
                    Offender {
                        place: v.at.place,
                        zoom,
                        value: under as i128,
                        note: Note::StrokeBuried { class: l.class, level: l.level },
                    },
                )
            } else {
                None
            },
        )
    }
}

/// Whether a marking vertex is measured: well inside the tile and on no
/// structure.
pub open spec fn marking_counts(roads: Seq<RoadMesh>, v: StrokeVertex) -> bool {
    v.at.owned && v.margin >= BORDER_MARGIN_UM && !rides_structure(roads, v.at, v.height as int)
}

pub open spec fn on_asphalt(roads: Seq<RoadMesh>, p: Probe) -> bool {
    paved_height(roads, p, roads.len() as int) is Some
}

pub open spec fn offside_vertex_scored(s: Scores, roads: Seq<RoadMesh>, width: i64, v: StrokeVertex, zoom: u8) -> Scores {
    if !marking_counts(roads, v) {
        s
    } else {
        let out = if on_asphalt(roads, v.at) {
            0
        } else {
            v.clear as int
        };
        scored(
            s,
            out,
            if out > OFFSIDE_UM {
                Some(
                    Offender { place: v.at.place, zoom, value: out as i128, note: Note::MarkingOffside { width } },
                )
            } else {
                None
            },
        )
    }
}

/// What an edge-line vertex adds: how far its near kerb is from where the
/// cross-section puts it. Only strokes with a direction, on the asphalt, with
/// a kerb in reach.
pub open spec fn inset_vertex_scored(s: Scores, roads: Seq<RoadMesh>, width: i64, part: int, v: StrokeVertex, zoom: u8) -> Scores {
    let near = near_kerb_of(v.left@, v.right@);
    if !marking_counts(roads, v) || !on_asphalt(roads, v.at) || !is_edge_line(width as int) || part < 2 || near is None {
        s
    } else {
        let err = abs(near->0 - EDGE_INSET_EXPECTED_UM);
        scored(
            s,
            err,
            if err > EDGE_INSET_SLOP_UM {
                Some(
                    Offender {
                        place: v.at.place,
                        zoom,
                        value: err as i128,
                        note: Note::EdgeLineInset { near: near->0 as i64 },
                    },
                )
            } else {
                None
            },
        )
    }
}

/// What a stroke is being scored for.
pub enum Asked {
    Doubled,
    Buried,
    Offside,
    Inset,
}

pub open spec fn vertex_scored(q: Asked, s: Scores, roads: Seq<RoadMesh>, l: Stroke, part: int, v: StrokeVertex, zoom: u8) -> Scores {
    match q {
        Asked::Doubled => doubled_vertex_scored(s, roads, l.class, v, zoom),
        Asked::Buried => buried_vertex_scored(s, l, v, zoom),
        Asked::Offside => offside_vertex_scored(s, roads, l.width, v, zoom),
        Asked::Inset => inset_vertex_scored(s, roads, l.width, part, v, zoom),
    }
}

pub open spec fn part_scored(q: Asked, s: Scores, roads: Seq<RoadMesh>, l: Stroke, part: Seq<StrokeVertex>, zoom: u8, n: int) -> Scores
    decreases n,
{
    if n <= 0 {
        s
    } else {
        vertex_scored(q, part_scored(q, s, roads, l, part, zoom, n - 1), roads, l, part.len() as int, part[n - 1], zoom)
    }
}

pub open spec fn stroke_scored(q: Asked, s: Scores, roads: Seq<RoadMesh>, l: Stroke, zoom: u8, n: int) -> Scores
    decreases n,
{
    if n <= 0 {
        s
    } else {
        part_scored(
            q,
            stroke_scored(q, s, roads, l, zoom, n - 1),
            roads,
            l,
            l.parts@[n - 1]@,
            zoom,
            l.parts@[n - 1]@.len() as int,
        )
    }
}

/// Which strokes a question is asked of.
pub open spec fn asked_of(q: Asked, l: Stroke) -> bool {
    match q {
        Asked::Doubled => l.level == 0 && banded_class(l.class@),
        Asked::Buried => l.level <= 0,
        Asked::Offside => l.class@ == "marking"@,
        Asked::Inset => l.class@ == "marking"@,
    }
}

/// What the first `n` strokes add.
pub open spec fn strokes_scored(q: Asked, s: Scores, roads: Seq<RoadMesh>, strokes: Seq<Stroke>, zoom: u8, n: int) -> Scores
    decreases n,
{
    if n <= 0 {
        s
    } else {
        let rest = strokes_scored(q, s, roads, strokes, zoom, n - 1);
        let l = strokes[n - 1];
        if asked_of(q, l) {
            stroke_scored(q, rest, roads, l, zoom, l.parts@.len() as int)
        } else {
            rest
        }
    }
}

fn covered_by_band(roads: &[RoadMesh], p: &Probe) -> (on: bool)
    requires
        p.covers(roads@),
    ensures
        on == on_band(roads@, *p),
{
    let mut k: usize = 0;
    while k < roads.len()
        invariant
            k <= roads@.len(),
            p.covers(roads@),
            forall|i: int| 0 <= i < k ==> !(is_band(#[trigger] roads@[i]) && p.heights@[i] is Some),
        decreases roads@.len() - k,
    {
        if p.heights[k].is_some() && roads[k].level == 0 && is_walk_material(&roads[k].class) {
            assert(is_band(roads@[k as int]));
            return true;
        }
        k = k + 1;
    }
    false
}

fn carried_by_structure(roads: &[RoadMesh], p: &Probe, h: i64) -> (yes: bool)
    requires
        p.covers(roads@),
    ensures
        yes == rides_structure(roads@, *p, h as int),
{
    let mut k: usize = 0;
    while k < roads.len()
        invariant
            k <= roads@.len(),
            p.covers(roads@),
            forall|i: int|
                0 <= i < k ==> !(((#[trigger] roads@[i]).deck || roads@[i].bore) && p.ranges@[i] is Some && (
                p.ranges@[i]->0).0 - RIDING_UM <= h <= (p.ranges@[i]->0).1 + RIDING_UM),
        decreases roads@.len() - k,
    {
        if roads[k].deck || roads[k].bore {
            if let Some((lo, hi)) = p.ranges[k] {
                if lo as i128 - RIDING_UM <= h as i128 && h as i128 <= hi as i128 + RIDING_UM {
                    assert(roads@[k as int].deck || roads@[k as int].bore);
                    return true;
                }
            }
        }
        k = k + 1;
    }
    false
}

/// The paint check.
#[derive(Debug)]
pub struct Paint {
    pub offside: Tally,
    pub inset: Tally,
    pub buried: Tally,
    pub doubled: Tally,
    /// Whether any tile drew a pedestrian band.
    pub doubled_seen: bool,
}

impl Paint {
    pub open spec fn well_formed(&self) -> bool {
        &&& self.offside.well_formed()
        &&& self.inset.well_formed()
        &&& self.buried.well_formed()
        &&& self.doubled.well_formed()
    }

    pub fn new(opt: &Options) -> (out: Paint)
        requires
            opt.worst_k < usize::MAX,
        ensures
            out.well_formed(),
            !out.doubled_seen,
            out.offside@ == fresh(opt.worst_k),
            out.inset@ == fresh(opt.worst_k),
            out.buried@ == fresh(opt.worst_k),
            out.doubled@ == fresh(opt.worst_k),
    {
        Paint {
            offside: Tally::new(Sense::HigherIsWorse, opt.worst_k),
            inset: Tally::new(Sense::HigherIsWorse, opt.worst_k),
            buried: Tally::new(Sense::HigherIsWorse, opt.worst_k),
            doubled: Tally::new(Sense::HigherIsWorse, opt.worst_k),
            doubled_seen: false,
        }
    }

    /// Scores every owned vertex of every at-grade pedestrian stroke by
    /// whether a drawn pedestrian band already covers it.
    pub fn visit_doubled(&mut self, zoom: u8, roads: &[RoadMesh], strokes: &[Stroke])
        requires
            old(self).well_formed(),
            forall|i: int| 0 <= i < strokes@.len() ==> stroke_fits(roads@, #[trigger] strokes@[i]),
        ensures
            final(self).well_formed(),
            final(self).doubled_seen == (old(self).doubled_seen || draws_bands(roads@)),
            final(self).doubled@ == (if draws_bands(roads@) {
                strokes_scored(Asked::Doubled, old(self).doubled@, roads@, strokes@, zoom, strokes@.len() as int)
            } else {
                old(self).doubled@
            }),
            final(self).offside == old(self).offside,
            final(self).inset == old(self).inset,
            final(self).buried == old(self).buried,
    {
        let mut any: bool = false;
        let mut k: usize = 0;
        while k < roads.len()
            invariant
                k <= roads@.len(),
                any == exists|i: int| 0 <= i < k && is_band(#[trigger] roads@[i]),
            decreases roads@.len() - k,
        {
            if roads[k].level == 0 && is_walk_material(&roads[k].class) {
                assert(is_band(roads@[k as int]));
                any = true;
            }
            k = k + 1;
        }
        if !any {
            return;
        }
        self.doubled_seen = true;
        let ghost start = self.doubled@;
        let ghost q = Asked::Doubled;
        let mut i: usize = 0;
        while i < strokes.len()
            invariant
                i <= strokes@.len(),
                q == Asked::Doubled,
                forall|k: int| 0 <= k < strokes@.len() ==> stroke_fits(roads@, #[trigger] strokes@[k]),
                self.well_formed(),
                self.doubled_seen,
                self.doubled@ == strokes_scored(q, start, roads@, strokes@, zoom, i as int),
                self.offside == old(self).offside,
                self.inset == old(self).inset,
                self.buried == old(self).buried,
            decreases strokes@.len() - i,
        {
            let l: &Stroke = &strokes[i];
            assert(stroke_fits(roads@, strokes@[i as int]));
            if l.level == 0 && is_banded_class(&l.class) {
                let ghost on_stroke = self.doubled@;
                let mut p: usize = 0;
                while p < l.parts.len()
                    invariant
                        p <= l.parts@.len(),
                        q == Asked::Doubled,
                        stroke_fits(roads@, *l),
                        self.well_formed(),
                        self.doubled_seen,
                        self.doubled@ == stroke_scored(q, on_stroke, roads@, *l, zoom, p as int),
                        self.offside == old(self).offside,
                        self.inset == old(self).inset,
                        self.buried == old(self).buried,
                    decreases l.parts@.len() - p,
                {
                    let part: &Vec<StrokeVertex> = &l.parts[p];
                    let ghost on_part = self.doubled@;
                    let mut v: usize = 0;
                    while v < part.len()
                        invariant
                            v <= part@.len(),
                            q == Asked::Doubled,
                            p < l.parts@.len(),
                            part@ == l.parts@[p as int]@,
                            stroke_fits(roads@, *l),
                            self.well_formed(),
                            self.doubled_seen,
                            self.doubled@ == part_scored(q, on_part, roads@, *l, part@, zoom, v as int),
                            self.offside == old(self).offside,
                            self.inset == old(self).inset,
                            self.buried == old(self).buried,
                        decreases part@.len() - v,
                    {
                        let vertex: &StrokeVertex = &part[v];
                        assert(l.parts@[p as int]@[v as int].at.covers(roads@));
                        if vertex.at.owned {
                            if covered_by_band(roads, &vertex.at) {
                                self.doubled.record(
                                    DOUBLED,
                                    Some(
                                        Offender {
                                            place: vertex.at.place,
                                            zoom,
                                            value: DOUBLED,
                                            note: Note::StrokeDoubled { class: l.class.clone() },
                                        },
                                    ),
                                );
                            } else {
                                self.doubled.record(0, None);
                            }
                        }
                        v = v + 1;
                    }
                    p = p + 1;
                }
            }
            i = i + 1;
        }
    }

    /// Scores every owned vertex of every stroke at or below grade by how far
    /// under the drawn terrain it sits.
    pub fn visit_buried(&mut self, zoom: u8, roads: &[RoadMesh], has_terrain: bool, strokes: &[Stroke])
        requires
            old(self).well_formed(),
        ensures
            final(self).well_formed(),
            final(self).buried@ == (if has_terrain {
                strokes_scored(Asked::Buried, old(self).buried@, roads@, strokes@, zoom, strokes@.len() as int)
            } else {
                old(self).buried@
            }),
            final(self).offside == old(self).offside,
            final(self).inset == old(self).inset,
            final(self).doubled == old(self).doubled,
            final(self).doubled_seen == old(self).doubled_seen,
    {
        if !has_terrain {
            return;
        }
        let ghost start = self.buried@;
        let ghost q = Asked::Buried;
        let mut i: usize = 0;
        while i < strokes.len()
            invariant
                i <= strokes@.len(),
                q == Asked::Buried,
                self.well_formed(),
                self.buried@ == strokes_scored(q, start, roads@, strokes@, zoom, i as int),
                self.offside == old(self).offside,
                self.inset == old(self).inset,
                self.doubled == old(self).doubled,
                self.doubled_seen == old(self).doubled_seen,
            decreases strokes@.len() - i,
        {
            let l: &Stroke = &strokes[i];
            if l.level <= 0 {
                let ghost on_stroke = self.buried@;
                let mut p: usize = 0;
                while p < l.parts.len()
                    invariant
                        p <= l.parts@.len(),
                        q == Asked::Buried,
                        self.well_formed(),
                        self.buried@ == stroke_scored(q, on_stroke, roads@, *l, zoom, p as int),
                        self.offside == old(self).offside,
                        self.inset == old(self).inset,
                        self.doubled == old(self).doubled,
                        self.doubled_seen == old(self).doubled_seen,
                    decreases l.parts@.len() - p,
                {
                    let part: &Vec<StrokeVertex> = &l.parts[p];
                    let ghost on_part = self.buried@;
                    let mut v: usize = 0;
                    while v < part.len()
                        invariant
                            v <= part@.len(),
                            q == Asked::Buried,
                            p < l.parts@.len(),
                            part@ == l.parts@[p as int]@,
                            self.well_formed(),
                            self.buried@ == part_scored(q, on_part, roads@, *l, part@, zoom, v as int),
                            self.offside == old(self).offside,
                            self.inset == old(self).inset,
                            self.doubled == old(self).doubled,
                            self.doubled_seen == old(self).doubled_seen,
                        decreases part@.len() - v,
                    {
                        let vertex: &StrokeVertex = &part[v];
                        if vertex.at.owned {
                            if let Some(ground) = vertex.at.terrain {
                                let depth: i128 = ground as i128 - vertex.height as i128;
                                let under: i128 = if depth < 0 { 0 } else { depth };
                                let offender: Option<Offender> = if under > BURIED_UM {
                                    Some(
                                        Offender {
                                            place: vertex.at.place,
                                            zoom,
                                            value: under,
                                            note: Note::StrokeBuried { class: l.class.clone(), level: l.level },
                                        },
                                    )
                                } else {
                                    None
                                };
                                self.buried.record(under, offender);
                            }
                        }
                        v = v + 1;
                    }
                    p = p + 1;
                }
            }
            i = i + 1;
        }
    }

    /// Scores one marking vertex.
    fn visit_marking(&mut self, zoom: u8, roads: &[RoadMesh], l: &Stroke, part: usize, vertex: &StrokeVertex)
        requires
            old(self).well_formed(),
            vertex.at.covers(roads@),
        ensures
            final(self).well_formed(),
            final(self).offside@ == offside_vertex_scored(old(self).offside@, roads@, l.width, *vertex, zoom),
            final(self).inset@ == inset_vertex_scored(old(self).inset@, roads@, l.width, part as int, *vertex, zoom),
            final(self).buried == old(self).buried,
            final(self).doubled == old(self).doubled,
            final(self).doubled_seen == old(self).doubled_seen,
    {
        if !vertex.at.owned || vertex.margin < BORDER_MARGIN_UM || carried_by_structure(roads, &vertex.at, vertex.height) {
            return;
        }
        let on: bool = paved_at(roads, &vertex.at).is_some();
        let out: i128 = if on { 0 } else { vertex.clear as i128 };
        let offender: Option<Offender> = if out > OFFSIDE_UM {
            Some(Offender { place: vertex.at.place, zoom, value: out, note: Note::MarkingOffside { width: l.width } })
        } else {
            None
        };
        self.offside.record(out, offender);
        if !on || distance(l.width, EDGE_LINE_WIDTH_UM) >= MARKING_WIDTH_EPS_UM || part < 2 {
            return;
        }
        if let Some(near) = near_kerb(&vertex.left, &vertex.right) {
            let err: i128 = distance(near, EDGE_INSET_EXPECTED_UM) as i128;
            let offender: Option<Offender> = if err > EDGE_INSET_SLOP_UM {
                Some(Offender { place: vertex.at.place, zoom, value: err, note: Note::EdgeLineInset { near } })
            } else {
                None
            };
            self.inset.record(err, offender);
        }
    }

    /// Scores every marking of a tile that draws asphalt.
    fn visit_markings(&mut self, zoom: u8, roads: &[RoadMesh], strokes: &[Stroke])
        requires
            old(self).well_formed(),
            forall|i: int| 0 <= i < strokes@.len() ==> stroke_fits(roads@, #[trigger] strokes@[i]),
        ensures
            final(self).well_formed(),
            final(self).offside@ == strokes_scored(
                Asked::Offside,
                old(self).offside@,
                roads@,
                strokes@,
                zoom,
                strokes@.len() as int,
            ),
            final(self).inset@ == strokes_scored(Asked::Inset, old(self).inset@, roads@, strokes@, zoom, strokes@.len() as int),
            final(self).buried == old(self).buried,
            final(self).doubled == old(self).doubled,
            final(self).doubled_seen == old(self).doubled_seen,
    {
        let ghost off0 = self.offside@;
        let ghost in0 = self.inset@;
        let mut i: usize = 0;
        while i < strokes.len()
            invariant
                i <= strokes@.len(),
                forall|k: int| 0 <= k < strokes@.len() ==> stroke_fits(roads@, #[trigger] strokes@[k]),
                self.well_formed(),
                self.offside@ == strokes_scored(Asked::Offside, off0, roads@, strokes@, zoom, i as int),
                self.inset@ == strokes_scored(Asked::Inset, in0, roads@, strokes@, zoom, i as int),
                self.buried == old(self).buried,
                self.doubled == old(self).doubled,
                self.doubled_seen == old(self).doubled_seen,
            decreases strokes@.len() - i,
        {
            let l: &Stroke = &strokes[i];
            assert(stroke_fits(roads@, strokes@[i as int]));
            if is_name(&l.class, "marking") {
                let ghost off1 = self.offside@;
                let ghost in1 = self.inset@;
                let mut p: usize = 0;
                while p < l.parts.len()
                    invariant
                        p <= l.parts@.len(),
                        stroke_fits(roads@, *l),
                        self.well_formed(),
                        self.offside@ == stroke_scored(Asked::Offside, off1, roads@, *l, zoom, p as int),
                        self.inset@ == stroke_scored(Asked::Inset, in1, roads@, *l, zoom, p as int),
                        self.buried == old(self).buried,
                        self.doubled == old(self).doubled,
                        self.doubled_seen == old(self).doubled_seen,
                    decreases l.parts@.len() - p,
                {
                    let part: &Vec<StrokeVertex> = &l.parts[p];
                    let ghost off2 = self.offside@;
                    let ghost in2 = self.inset@;
                    let mut v: usize = 0;
                    while v < part.len()
                        invariant
                            v <= part@.len(),
                            p < l.parts@.len(),
                            part@ == l.parts@[p as int]@,
                            stroke_fits(roads@, *l),
                            self.well_formed(),
                            self.offside@ == part_scored(Asked::Offside, off2, roads@, *l, part@, zoom, v as int),
                            self.inset@ == part_scored(Asked::Inset, in2, roads@, *l, part@, zoom, v as int),
                            self.buried == old(self).buried,
                            self.doubled == old(self).doubled,
                            self.doubled_seen == old(self).doubled_seen,
                        decreases part@.len() - v,
                    {
                        assert(l.parts@[p as int]@[v as int].at.covers(roads@));
                        self.visit_marking(zoom, roads, l, part.len(), &part[v]);
                        v = v + 1;
                    }
                    p = p + 1;
                }
            }
            i = i + 1;
        }
    }

    /// Scores one tile.
    pub fn visit(&mut self, zoom: u8, roads: &[RoadMesh], has_terrain: bool, strokes: &[Stroke])
        requires
            old(self).well_formed(),
            forall|i: int| 0 <= i < strokes@.len() ==> stroke_fits(roads@, #[trigger] strokes@[i]),
        ensures
            final(self).well_formed(),
            final(self).buried@ == (if has_terrain {
                strokes_scored(Asked::Buried, old(self).buried@, roads@, strokes@, zoom, strokes@.len() as int)
            } else {
                old(self).buried@
            }),
            final(self).doubled_seen == (old(self).doubled_seen || draws_bands(roads@)),
            final(self).doubled@ == (if draws_bands(roads@) {
                strokes_scored(Asked::Doubled, old(self).doubled@, roads@, strokes@, zoom, strokes@.len() as int)
            } else {
                old(self).doubled@
            }),
            final(self).offside@ == (if any_paved(roads@) {
                strokes_scored(Asked::Offside, old(self).offside@, roads@, strokes@, zoom, strokes@.len() as int)
            } else {
                old(self).offside@
            }),
            final(self).inset@ == (if any_paved(roads@) {
                strokes_scored(Asked::Inset, old(self).inset@, roads@, strokes@, zoom, strokes@.len() as int)
            } else {
                old(self).inset@
            }),
    {
        self.visit_buried(zoom, roads, has_terrain, strokes);
        self.visit_doubled(zoom, roads, strokes);
        if draws_asphalt(roads) {
            self.visit_markings(zoom, roads, strokes);
        }
    }

    /// What the finished metrics say.
    pub open spec fn reported(&self, out: Seq<Metric>) -> bool {
        &&& out.len() == 4
        &&& out[0].reports(
            "paint.marking_offside"@,
            Invariant::I4,
            OFFSIDE_UM as int,
            self.offside@.samples.len() == 0,
            self.offside@,
        )
        &&& out[1].reports(
            "paint.edge_line_inset"@,
            Invariant::I4,
            EDGE_INSET_SLOP_UM as int,
            self.inset@.samples.len() == 0,
            self.inset@,
        )
        &&& out[2].reports("paint.buried"@, Invariant::I4, BURIED_UM as int, self.buried@.samples.len() == 0, self.buried@)
        &&& out[3].reports("paint.stroke_over_band"@, Invariant::I1, DOUBLED_THRESHOLD as int, !self.doubled_seen, self.doubled@)
    }

    pub fn finish(self) -> (out: Vec<Metric>)
        ensures
            self.reported(out@),
    {
        let mut out: Vec<Metric> = Vec::new();
        let skipped: bool = self.offside.dist.is_empty();
        out.push(Metric::close("paint.marking_offside", Invariant::I4, OFFSIDE_UM, skipped, self.offside));
        let skipped: bool = self.inset.dist.is_empty();
        out.push(Metric::close("paint.edge_line_inset", Invariant::I4, EDGE_INSET_SLOP_UM, skipped, self.inset));
        let skipped: bool = self.buried.dist.is_empty();
        out.push(Metric::close("paint.buried", Invariant::I4, BURIED_UM, skipped, self.buried));
        out.push(
            Metric::close("paint.stroke_over_band", Invariant::I1, DOUBLED_THRESHOLD, !self.doubled_seen, self.doubled),
        );
        out
    }
}

} // verus!
