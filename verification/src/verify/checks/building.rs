//! Does the drawn ground meet a building's designed seat?
//!
//! A building's walls anchor at the highest ground under its footprint and its
//! foundation sinks past the lowest by a margin, so the drawn ground should
//! cross the band from the foot up to the foot plus relief plus margin at
//! every bottom-ring vertex. What escapes it is measured.
use vstd::prelude::*;
use crate::verify::{fresh, scored, Invariant, Metric, Note, Offender, Place, Scores, Sense, Tally};
use crate::verify::checks::Options;
use crate::verify::findings::{above, gathered, gathered_rows, Finding};

verus! {

/// How far outside the seat band the drawn ground may sit.
pub const SEAT_UM: i128 = 1_000_000;

/// A vertex within this of the lowest is part of the bottom ring.
pub const FOOT_EPS_UM: i128 = 50_000;

/// One vertex of a building mesh: its height, whether the tile owns it, and
/// the drawn terrain over it.
#[derive(Clone, Copy, Debug, PartialEq, Eq, Structural)]
pub struct FootVertex {
    pub height: i64,
    pub owned: bool,
    pub ground: Option<i64>,
    pub place: Place,
}

/// One building: the ground spread it was seated on, and its vertices.
pub struct BuildingMesh {
    pub relief: i64,
    pub vertices: Vec<FootVertex>,
}

/// The lowest of the first `n` vertices (at least one).
pub open spec fn foot_of(v: Seq<FootVertex>, n: int) -> int
    decreases n,
{
    if n <= 1 {
        v[0].height as int
    } else {
        let lower = foot_of(v, n - 1);
        if v[n - 1].height < lower {
            v[n - 1].height as int
        } else {
            lower
        }
    }
}

/// How far ground at `t` lies outside the band from `foot` to `base`.
pub open spec fn outside(foot: int, base: int, t: int) -> int {
    if foot - t > 0 && foot - t >= t - base {
        foot - t
    } else if t - base > 0 {
        t - base
    } else {
        0
    }
}

/// What one vertex adds: nothing unless it is an owned bottom-ring vertex over
/// drawn terrain.
pub open spec fn vertex_scored(s: Scores, v: FootVertex, foot: int, relief: i64, margin: int, zoom: u8) -> Scores {
    if v.height > foot + FOOT_EPS_UM || !v.owned {
        s
    } else {
        match v.ground {
            None => s,
            Some(t) => {
                let out = outside(foot, foot + relief + margin, t as int);
                scored(
                    s,
                    out,
                    if out > SEAT_UM {
                        Some(
                            Offender {
                                place: v.place,
                                zoom,
                                value: out as i128,
                                note: Note::BuildingSeat { daylight: t < foot, relief },
                            },
                        )
                    } else {
                        None
                    },
                )
            },
        }
    }
}

/// What the first `n` vertices of a building add.
pub open spec fn vertices_scored(s: Scores, b: BuildingMesh, margin: int, zoom: u8, n: int) -> Scores
    decreases n,
{
    if n <= 0 {
        s
    } else {
        vertex_scored(
            vertices_scored(s, b, margin, zoom, n - 1),
            b.vertices@[n - 1],
            foot_of(b.vertices@, b.vertices@.len() as int),
            b.relief,
            margin,
            zoom,
        )
    }
}

/// What the first `n` buildings add.
pub open spec fn buildings_scored(s: Scores, b: Seq<BuildingMesh>, margin: int, zoom: u8, n: int) -> Scores
    decreases n,
{
    if n <= 0 {
        s
    } else {
        vertices_scored(
            buildings_scored(s, b, margin, zoom, n - 1),
            b[n - 1],
            margin,
            zoom,
            b[n - 1].vertices@.len() as int,
        )
    }
}

/// The seat check.
#[derive(Debug)]
pub struct Building {
    pub seat: Tally,
}

impl Building {
    pub open spec fn well_formed(&self) -> bool {
        self.seat.well_formed()
    }

    pub fn new(opt: &Options) -> (out: Building)
        requires
            opt.worst_k < usize::MAX,
        ensures
            out.well_formed(),
            out.seat@ == fresh(opt.worst_k),
    {
        Building { seat: Tally::new(Sense::HigherIsWorse, opt.worst_k) }
    }

    /// Scores every building of a tile that has drawn terrain. `margin` is how
    /// far a foundation sinks past the lowest ground.
    pub fn visit(&mut self, zoom: u8, has_terrain: bool, buildings: &[BuildingMesh], margin: i64)
        requires
            old(self).well_formed(),
        ensures
            final(self).well_formed(),
            final(self).seat@ == (if has_terrain {
                buildings_scored(old(self).seat@, buildings@, margin as int, zoom, buildings@.len() as int)
            } else {
                old(self).seat@
            }),
    {
        if !has_terrain {
            return;
        }
        let ghost start = self.seat@;
        let mut i: usize = 0;
        while i < buildings.len()
            invariant
                i <= buildings@.len(),
                self.seat.well_formed(),
                self.seat@ == buildings_scored(start, buildings@, margin as int, zoom, i as int),
            decreases buildings@.len() - i,
        {
            let b: &BuildingMesh = &buildings[i];
            let ghost base = self.seat@;
            if b.vertices.len() > 0 {
                let mut foot: i64 = b.vertices[0].height;
                let mut k: usize = 1;
                while k < b.vertices.len()
                    invariant
                        1 <= k <= b.vertices@.len(),
                        foot == foot_of(b.vertices@, k as int),
                    decreases b.vertices@.len() - k,
                {
                    if b.vertices[k].height < foot {
                        foot = b.vertices[k].height;
                    }
                    k = k + 1;
                }
                let mut k: usize = 0;
                while k < b.vertices.len()
                    invariant
                        k <= b.vertices@.len(),
                        foot == foot_of(b.vertices@, b.vertices@.len() as int),
                        self.seat.well_formed(),
                        self.seat@ == vertices_scored(base, *b, margin as int, zoom, k as int),
                    decreases b.vertices@.len() - k,
                {
                    let v: FootVertex = b.vertices[k];
                    let low: i128 = foot as i128;
                    if v.height as i128 <= low + FOOT_EPS_UM && v.owned {
                        if let Some(t) = v.ground {
                            let under: i128 = low - t as i128;
                            let over: i128 = t as i128 - (low + b.relief as i128 + margin as i128);
                            let out: i128 = if under > 0 && under >= over {
                                under
                            } else if over > 0 {
                                over
                            } else {
                                0
                            };
                            let offender: Option<Offender> = if out > SEAT_UM {
                                Some(
                                    Offender {
                                        place: v.place,
                                        zoom,
                                        value: out,
                                        note: Note::BuildingSeat { daylight: t < foot, relief: b.relief },
                                    },
                                )
                            } else {
                                None
                            };
                            self.seat.record(out, offender);
                        }
                    }
                    k = k + 1;
                }
            }
            i = i + 1;
        }
    }

    /// What the finished metrics say.
    pub open spec fn reported(&self, out: Seq<Metric>) -> bool {
        &&& out.len() == 1
        &&& out[0].reports(
            "contact.building_seat"@,
            Invariant::I4,
            SEAT_UM as int,
            self.seat@.samples.len() == 0,
            self.seat@,
        )
    }

    pub fn finish(self) -> (out: Vec<Metric>)
        ensures
            self.reported(out@),
    {
        let skipped: bool = self.seat.dist.is_empty();
        let mut out: Vec<Metric> = Vec::new();
        out.push(Metric::close("contact.building_seat", Invariant::I4, SEAT_UM, skipped, self.seat));
        out
    }
}

/// Ground inside the seat band scores zero, and only ground past either end of
/// it scores more.
pub proof fn ground_inside_the_band_is_no_offence(foot: int, base: int, t: int)
    requires
        foot <= base,
    ensures
        outside(foot, base, t) >= 0,
        outside(foot, base, t) == 0 <==> foot <= t <= base,
{
}

/// A building's foot is the lowest of its vertices.
pub proof fn a_foot_is_the_lowest_vertex(v: Seq<FootVertex>, n: int)
    requires
        1 <= n <= v.len(),
    ensures
        forall|i: int| 0 <= i < n ==> foot_of(v, n) <= (#[trigger] v[i]).height,
        exists|i: int| 0 <= i < n && (#[trigger] v[i]).height == foot_of(v, n),
    decreases n,
{
    if n > 1 {
        a_foot_is_the_lowest_vertex(v, n - 1);
        if v[n - 1].height < foot_of(v, n - 1) {
            assert(v[n - 1].height == foot_of(v, n));
        } else {
            let i = choose|i: int| 0 <= i < n - 1 && (#[trigger] v[i]).height == foot_of(v, n - 1);
            assert(v[i].height == foot_of(v, n));
        }
    } else {
        assert(v[0].height == foot_of(v, n));
    }
}

/// Ground outside the seat band is off by how far it is below the foot or above
/// the base.
pub proof fn ground_is_off_by_how_far_it_is_outside(foot: int, base: int, t: int)
    requires
        foot <= base,
    ensures
        t < foot ==> outside(foot, base, t) == foot - t,
        t > base ==> outside(foot, base, t) == t - base,
{
}

/// What is found at every vertex of every building: how far the ground is outside
/// the band from the foot to the relief and the margin above it, at owned
/// vertices of the bottom ring over drawn terrain, past the limit above a metre.
pub open spec fn seats_found(b: Seq<BuildingMesh>, margin: int, zoom: u8, rows: Seq<Seq<Option<Finding>>>) -> bool {
    &&& rows.len() == b.len()
    &&& forall|i: int| 0 <= i < b.len() ==> (#[trigger] rows[i]).len() == b[i].vertices@.len()
    &&& forall|i: int, k: int|
        0 <= i < b.len() && 0 <= k < rows[i].len() ==> #[trigger] rows[i][k] == ({
            let v = b[i].vertices@[k];
            let foot = foot_of(b[i].vertices@, b[i].vertices@.len() as int);
            if v.owned && v.height - foot <= 50_000 && v.ground is Some {
                let off = outside(foot, foot + b[i].relief + margin, v.ground->0 as int);
                above(
                    off,
                    1_000_000,
                    Offender {
                        place: v.place,
                        zoom,
                        value: off as i128,
                        note: Note::BuildingSeat { daylight: v.ground->0 < foot, relief: b[i].relief },
                    },
                )
            } else {
                None
            }
        })
}

/// Every building is measured at its bottom ring.
pub proof fn every_building_is_measured_at_its_foot(s: Scores, b: Seq<BuildingMesh>, margin: int, zoom: u8, rows: Seq<Seq<Option<Finding>>>, n: int)
    requires
        0 <= n <= b.len(),
        seats_found(b, margin, zoom, rows),
    ensures
        buildings_scored(s, b, margin, zoom, n) == gathered_rows(s, rows, n),
    decreases n,
{
    if n > 0 {
        every_building_is_measured_at_its_foot(s, b, margin, zoom, rows, n - 1);
        assert(rows[n - 1].len() == b[n - 1].vertices@.len());
        lemma_vertices_found(buildings_scored(s, b, margin, zoom, n - 1), b, margin, zoom, rows, n - 1, rows[n - 1].len() as int);
    }
}

proof fn lemma_vertices_found(s: Scores, b: Seq<BuildingMesh>, margin: int, zoom: u8, rows: Seq<Seq<Option<Finding>>>, i: int, n: int)
    requires
        0 <= i < b.len(),
        0 <= n <= rows[i].len(),
        seats_found(b, margin, zoom, rows),
    ensures
        vertices_scored(s, b[i], margin, zoom, n) == gathered(s, rows[i], n),
    decreases n,
{
    if n > 0 {
        lemma_vertices_found(s, b, margin, zoom, rows, i, n - 1);
        let f = rows[i][n - 1];
    }
}

} // verus!
