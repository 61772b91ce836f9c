//! What the paint check finds, vertex by vertex.
use vstd::prelude::*;

use crate::verify::checks::paint::{
    asked_of, draws_bands, on_band, part_scored, rides_structure, stroke_scored, strokes_scored, Asked, Stroke,
    StrokeVertex,
};
use crate::verify::findings::{above, gathered, gathered_rows, gathered_sheets, Finding};
use crate::verify::march::near_kerb_of;
use crate::verify::scene::{paved_height, Probe, RoadMesh};
use crate::verify::{Note, Offender, Scores};

verus! {

/// Whether a mesh is drawn pedestrian pavement at grade.
pub open spec fn is_walk_pavement(r: RoadMesh) -> bool {
    r.level == 0 && (r.class@ == "walk_surface"@ || r.class@ == "walk_rim"@ || r.class@ == "path_surface"@ || r.class@
        == "path_rim"@)
}

/// Whether a deck or a bore carries a stroke at a height: it is within a metre of
/// the mesh's own range there.
pub open spec fn is_carried(roads: Seq<RoadMesh>, p: Probe, h: int) -> bool {
    exists|k: int|
        0 <= k < roads.len() && ((#[trigger] roads[k]).deck || roads[k].bore) && (p.ranges@[k] matches Some(r) && r.0
            - 1_000_000 <= h <= r.1 + 1_000_000)
}

/// Whether drawn pedestrian pavement covers a point.
pub open spec fn is_over_a_band(roads: Seq<RoadMesh>, p: Probe) -> bool {
    exists|k: int| 0 <= k < roads.len() && is_walk_pavement(#[trigger] roads[k]) && p.heights@[k] is Some
}

/// Whether a marking is measured at a vertex: owned, eight metres inside the
/// tile, and carried by no structure.
pub open spec fn is_measured(roads: Seq<RoadMesh>, v: StrokeVertex) -> bool {
    v.at.owned && v.margin >= 8_000_000 && !is_carried(roads, v.at, v.height as int)
}

/// What is found at a vertex of a stroke.
///
/// A pedestrian stroke at grade: one where pavement drawn for it covers the
/// vertex and nought where none does. Any stroke at or below grade: how far it
/// is under the terrain, past the limit above a metre. A marking: how far it is
/// off the asphalt, past the limit above a quarter metre; and where it is an
/// edge line on the asphalt with a direction and a kerb in reach, how far the
/// near kerb is from a metre and three tenths, past the limit above two metres.
pub open spec fn stroke_found(q: Asked, roads: Seq<RoadMesh>, l: Stroke, part: int, v: StrokeVertex, zoom: u8) -> Option<Finding> {
    let over_asphalt = paved_height(roads, v.at, roads.len() as int) is Some;
    match q {
        Asked::Doubled => if !v.at.owned {
            None
        } else {
            let value = if is_over_a_band(roads, v.at) {
                1_000_000int
            } else {
                0
            };
            above(
                value,
                500_000,
                Offender {
                    place: v.at.place,
                    zoom,
                    value: value as i128,
                    note: Note::StrokeDoubled { class: l.class },
                },
            )
        },
        Asked::Buried => if !v.at.owned || v.at.terrain is None {
            None
        } else {
            let under = if v.at.terrain->0 > v.height {
                v.at.terrain->0 - v.height
            } else {
                0
            };
            above(
                under,
                1_000_000,
                Offender {
                    place: v.at.place,
                    zoom,
                    value: under as i128,
                    note: Note::StrokeBuried { class: l.class, level: l.level },
                },
            )
        },
        Asked::Offside => if !is_measured(roads, v) {
            None
        } else {
            let off = if over_asphalt {
                0
            } else {
                v.clear as int
            };
            above(
                off,
                250_000,
                Offender { place: v.at.place, zoom, value: off as i128, note: Note::MarkingOffside { width: l.width } },
            )
        },
        Asked::Inset => {
            let near = near_kerb_of(v.left@, v.right@);
            if is_measured(roads, v) && over_asphalt && 140_000 < l.width < 160_000 && part >= 2 && near is Some {
                let off = if near->0 < 1_300_000 {
                    1_300_000 - near->0
                } else {
                    near->0 - 1_300_000
                };
                above(
                    off,
                    2_000_000,
                    Offender {
                        place: v.at.place,
                        zoom,
                        value: off as i128,
                        note: Note::EdgeLineInset { near: near->0 as i64 },
                    },
                )
            } else {
                None
            }
        },
    }
}

/// Whether a question is about a stroke.
pub open spec fn is_about(q: Asked, l: Stroke) -> bool {
    match q {
        Asked::Doubled => l.level == 0 && (l.class@ == "footway"@ || l.class@ == "path"@ || l.class@ == "steps"@ || l.class@
            == "cycleway"@ || l.class@ == "pedestrian"@ || l.class@ == "track"@),
        Asked::Buried => l.level <= 0,
        Asked::Offside => l.class@ == "marking"@,
        Asked::Inset => l.class@ == "marking"@,
    }
}

/// What is found at every vertex of every part of every stroke a question is
/// about.
pub open spec fn strokes_found(
    q: Asked,
    roads: Seq<RoadMesh>,
    strokes: Seq<Stroke>,
    zoom: u8,
    sheets: Seq<Seq<Seq<Option<Finding>>>>,
) -> bool {
    &&& sheets.len() == strokes.len()
    &&& forall|l: int|
        0 <= l < strokes.len() ==> (#[trigger] sheets[l]).len() == if is_about(q, strokes[l]) {
            strokes[l].parts@.len()
        } else {
            0
        }
    &&& forall|l: int, p: int|
        0 <= l < strokes.len() && 0 <= p < sheets[l].len() ==> (#[trigger] sheets[l][p]).len() == strokes[l].parts@[p]@.len()
    &&& forall|l: int, p: int, v: int|
        0 <= l < strokes.len() && 0 <= p < sheets[l].len() && 0 <= v < sheets[l][p].len() ==> #[trigger] sheets[l][p][v]
            == stroke_found(
            q,
            roads,
            strokes[l],
            strokes[l].parts@[p]@.len() as int,
            strokes[l].parts@[p]@[v],
            zoom,
        )
}

/// Every vertex of every stroke a question is about is measured.
pub proof fn every_stroke_vertex_is_measured(
    q: Asked,
    s: Scores,
    roads: Seq<RoadMesh>,
    strokes: Seq<Stroke>,
    zoom: u8,
    sheets: Seq<Seq<Seq<Option<Finding>>>>,
    n: int,
)
    requires
        0 <= n <= strokes.len(),
        strokes_found(q, roads, strokes, zoom, sheets),
    ensures
        strokes_scored(q, s, roads, strokes, zoom, n) == gathered_sheets(s, sheets, n),
    decreases n,
{
    if n > 0 {
        every_stroke_vertex_is_measured(q, s, roads, strokes, zoom, sheets, n - 1);
        let l = strokes[n - 1];
        let rest = strokes_scored(q, s, roads, strokes, zoom, n - 1);
        assert(asked_of(q, l) == is_about(q, l));
        assert(sheets[n - 1].len() == if is_about(q, l) {
            l.parts@.len()
        } else {
            0
        });
        if is_about(q, l) {
            lemma_stroke(q, rest, roads, strokes, zoom, sheets, n - 1, l.parts@.len() as int);
        }
    }
}

proof fn lemma_stroke(
    q: Asked,
    s: Scores,
    roads: Seq<RoadMesh>,
    strokes: Seq<Stroke>,
    zoom: u8,
    sheets: Seq<Seq<Seq<Option<Finding>>>>,
    l: int,
    n: int,
)
    requires
        0 <= l < strokes.len(),
        0 <= n <= sheets[l].len(),
        strokes_found(q, roads, strokes, zoom, sheets),
    ensures
        stroke_scored(q, s, roads, strokes[l], zoom, n) == gathered_rows(s, sheets[l], n),
    decreases n,
{
    if n > 0 {
        lemma_stroke(q, s, roads, strokes, zoom, sheets, l, n - 1);
        let rest = stroke_scored(q, s, roads, strokes[l], zoom, n - 1);
        assert(sheets[l][n - 1].len() == strokes[l].parts@[n - 1]@.len());
        lemma_part(q, rest, roads, strokes, zoom, sheets, l, n - 1, sheets[l][n - 1].len() as int);
    }
}

proof fn lemma_part(
    q: Asked,
    s: Scores,
    roads: Seq<RoadMesh>,
    strokes: Seq<Stroke>,
    zoom: u8,
    sheets: Seq<Seq<Seq<Option<Finding>>>>,
    l: int,
    p: int,
    n: int,
)
    requires
        0 <= l < strokes.len(),
        0 <= p < sheets[l].len(),
        0 <= n <= sheets[l][p].len(),
        strokes_found(q, roads, strokes, zoom, sheets),
    ensures
        part_scored(q, s, roads, strokes[l], strokes[l].parts@[p]@, zoom, n) == gathered(s, sheets[l][p], n),
    decreases n,
{
    if n > 0 {
        lemma_part(q, s, roads, strokes, zoom, sheets, l, p, n - 1);
        let v = strokes[l].parts@[p]@[n - 1];
        assert(sheets[l][p][n - 1] == stroke_found(q, roads, strokes[l], strokes[l].parts@[p]@.len() as int, v, zoom));
        lemma_covers(roads, v.at, v.height as int);
    }
}

proof fn lemma_covers(roads: Seq<RoadMesh>, p: Probe, h: int)
    ensures
        on_band(roads, p) == is_over_a_band(roads, p),
        rides_structure(roads, p, h) == is_carried(roads, p, h),
{
    if on_band(roads, p) {
        let k = choose|k: int|
            0 <= k < roads.len() && crate::verify::checks::paint::is_band(#[trigger] roads[k]) && p.heights@[k] is Some;
        assert(is_walk_pavement(roads[k]));
    }
    if is_over_a_band(roads, p) {
        let k = choose|k: int| 0 <= k < roads.len() && is_walk_pavement(#[trigger] roads[k]) && p.heights@[k] is Some;
        assert(crate::verify::checks::paint::is_band(roads[k]));
    }
    if rides_structure(roads, p, h) {
        let k = choose|k: int|
            0 <= k < roads.len() && ((#[trigger] roads[k]).deck || roads[k].bore) && p.ranges@[k] is Some && (p.ranges@[k]->0).0
                - 1_000_000 <= h <= (p.ranges@[k]->0).1 + 1_000_000;
        assert(roads[k].deck || roads[k].bore);
    }
    if is_carried(roads, p, h) {
        let k = choose|k: int|
            0 <= k < roads.len() && ((#[trigger] roads[k]).deck || roads[k].bore) && (p.ranges@[k] matches Some(r) && r.0
                - 1_000_000 <= h <= r.1 + 1_000_000);
        assert(roads[k].deck || roads[k].bore);
    }
}

/// A tile draws bands where one of its meshes is pedestrian pavement at grade.
pub proof fn a_tile_draws_bands_where_a_mesh_is_one(roads: Seq<RoadMesh>)
    ensures
        draws_bands(roads) <==> exists|k: int| 0 <= k < roads.len() && is_walk_pavement(#[trigger] roads[k]),
{
    if draws_bands(roads) {
        let k = choose|k: int| 0 <= k < roads.len() && crate::verify::checks::paint::is_band(#[trigger] roads[k]);
        assert(is_walk_pavement(roads[k]));
    }
    if exists|k: int| 0 <= k < roads.len() && is_walk_pavement(#[trigger] roads[k]) {
        let k = choose|k: int| 0 <= k < roads.len() && is_walk_pavement(#[trigger] roads[k]);
        assert(crate::verify::checks::paint::is_band(roads[k]));
    }
}

} // verus!
