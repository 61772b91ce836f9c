//! Annotation noise and elevation outliers may cost detail, but must never
//! produce spectacle: how steep the drawn faces are, and whether the ground
//! agrees with itself from vertex to vertex.
//!
//! Slopes are rise over plan run, in millionths.
use vstd::prelude::*;
use crate::verify::{fresh, scored, Invariant, Metric, Note, Offender, Place, Scores, Sense, Tally};
use crate::verify::checks::Options;
use crate::verify::findings::{above, gathered, gathered_rows, Finding};

verus! {

/// Steeper than any drivable road.
pub const ROAD_GRADE: i128 = 300_000;

/// A two-to-one face.
pub const GROUND_SLOPE: i128 = 2_000_000;

/// A face spanning less height than this cannot be seen however steep it is.
pub const VISIBLE_UM: i64 = 100_000;

/// How far a terrain vertex may stand off the plane of its neighbours before
/// the surface counts as torn rather than shaped.
pub const TEARING_UM: i128 = 500_000;

/// One drawn triangle: its steepness, the height it spans, and whether it is
/// part of its mesh's silhouette.
#[derive(Clone, Copy, Debug, PartialEq, Eq, Structural)]
pub struct Face {
    pub place: Place,
    pub slope: i64,
    pub rise: i64,
    pub rim: bool,
}

/// One interior terrain vertex: how far it alternates about its neighbours,
/// and how far it and the worst of them stand off.
#[derive(Clone, Copy, Debug, PartialEq, Eq, Structural)]
pub struct Stand {
    pub place: Place,
    pub amplitude: i64,
    pub up: i64,
    pub down: i64,
}

/// The drawn terrain of a tile.
#[derive(Debug)]
pub struct Ground {
    pub faces: Vec<Face>,
    pub vertices: Vec<Stand>,
}

/// Which surface a face belongs to.
#[derive(Clone, Copy, Debug, PartialEq, Eq, Structural)]
pub enum Surface {
    Terrain,
    Carriageway,
}

pub open spec fn too_steep(of: Surface) -> int {
    match of {
        Surface::Terrain => GROUND_SLOPE as int,
        Surface::Carriageway => ROAD_GRADE as int,
    }
}

/// Whether a face is scored: it spans a visible height, and a carriageway's
/// silhouette is vertical by design.
pub open spec fn face_counts(of: Surface, f: Face) -> bool {
    f.rise >= VISIBLE_UM && !(of == Surface::Carriageway && f.rim)
}

pub open spec fn face_scored(s: Scores, of: Surface, f: Face, zoom: u8) -> Scores {
    if !face_counts(of, f) {
        s
    } else {
        scored(
            s,
            f.slope as int,
            if f.slope > too_steep(of) {
                Some(
                    Offender {
                        place: f.place,
                        zoom,
                        value: f.slope as i128,
                        note: match of {
                            Surface::Terrain => Note::TerrainFace { rise: f.rise },
                            Surface::Carriageway => Note::RoadFace { rise: f.rise },
                        },
                    },
                )
            } else {
                None
            },
        )
    }
}

/// What the first `n` faces add.
pub open spec fn faces_scored(s: Scores, of: Surface, faces: Seq<Face>, zoom: u8, n: int) -> Scores
    decreases n,
{
    if n <= 0 {
        s
    } else {
        face_scored(faces_scored(s, of, faces, zoom, n - 1), of, faces[n - 1], zoom)
    }
}

/// What the first `n` carriageways add.
pub open spec fn bands_scored(s: Scores, bands: Seq<Vec<Face>>, zoom: u8, n: int) -> Scores
    decreases n,
{
    if n <= 0 {
        s
    } else {
        faces_scored(
            bands_scored(s, bands, zoom, n - 1),
            Surface::Carriageway,
            bands[n - 1]@,
            zoom,
            bands[n - 1]@.len() as int,
        )
    }
}

/// What the first `n` vertices add.
pub open spec fn tearing_scored(s: Scores, v: Seq<Stand>, zoom: u8, n: int) -> Scores
    decreases n,
{
    if n <= 0 {
        s
    } else {
        scored(
            tearing_scored(s, v, zoom, n - 1),
            v[n - 1].amplitude as int,
            if v[n - 1].amplitude > TEARING_UM {
                Some(
                    Offender {
                        place: v[n - 1].place,
                        zoom,
                        value: v[n - 1].amplitude as i128,
                        note: Note::Tearing { up: v[n - 1].up, down: v[n - 1].down },
                    },
                )
            } else {
                None
            },
        )
    }
}

/// A face too low to be seen is never scored, however steep.
pub proof fn an_invisible_face_is_no_wall(s: Scores, of: Surface, f: Face, zoom: u8)
    requires
        f.rise < VISIBLE_UM,
    ensures
        face_scored(s, of, f, zoom) == s,
{
}

/// A carriageway's own silhouette is never scored; the same face of the terrain
/// is.
pub proof fn the_kerb_is_vertical_by_design(s: Scores, f: Face, zoom: u8)
    requires
        f.rim,
        f.rise >= VISIBLE_UM,
    ensures
        face_scored(s, Surface::Carriageway, f, zoom) == s,
        face_scored(s, Surface::Terrain, f, zoom).samples == s.samples.push(f.slope as int),
{
}

fn score_faces(tally: &mut Tally, of: Surface, faces: &Vec<Face>, zoom: u8)
    requires
        old(tally).well_formed(),
    ensures
        final(tally).well_formed(),
        final(tally)@ == faces_scored(old(tally)@, of, faces@, zoom, faces@.len() as int),
{
    let mut i: usize = 0;
    while i < faces.len()
        invariant
            i <= faces@.len(),
            tally.well_formed(),
            tally@ == faces_scored(old(tally)@, of, faces@, zoom, i as int),
        decreases faces@.len() - i,
    {
        let f: Face = faces[i];
        let edge: bool = match of {
            Surface::Terrain => false,
            Surface::Carriageway => f.rim,
        };
        if f.rise >= VISIBLE_UM && !edge {
            let offender: Option<Offender> = match of {
                Surface::Terrain => if f.slope as i128 > GROUND_SLOPE {
                    Some(
                        Offender {
                            place: f.place,
                            zoom,
                            value: f.slope as i128,
                            note: Note::TerrainFace { rise: f.rise },
                        },
                    )
                } else {
                    None
                },
                Surface::Carriageway => if f.slope as i128 > ROAD_GRADE {
                    Some(
                        Offender { place: f.place, zoom, value: f.slope as i128, note: Note::RoadFace { rise: f.rise } },
                    )
                } else {
                    None
                },
            };
            tally.record(f.slope as i128, offender);
        }
        i = i + 1;
    }
}

/// The slope check.
#[derive(Debug)]
pub struct Slope {
    pub road: Tally,
    pub ground: Tally,
    pub tearing: Tally,
}

impl Slope {
    pub open spec fn well_formed(&self) -> bool {
        self.road.well_formed() && self.ground.well_formed() && self.tearing.well_formed()
    }

    pub fn new(opt: &Options) -> (out: Slope)
        requires
            opt.worst_k < usize::MAX,
        ensures
            out.well_formed(),
            out.road@ == fresh(opt.worst_k),
            out.ground@ == fresh(opt.worst_k),
            out.tearing@ == fresh(opt.worst_k),
    {
        Slope {
            road: Tally::new(Sense::HigherIsWorse, opt.worst_k),
            ground: Tally::new(Sense::HigherIsWorse, opt.worst_k),
            tearing: Tally::new(Sense::HigherIsWorse, opt.worst_k),
        }
    }

    /// Scores how far each interior terrain vertex stands off its neighbours.
    pub fn visit_terrain_tearing(&mut self, zoom: u8, vertices: &Vec<Stand>)
        requires
            old(self).well_formed(),
        ensures
            final(self).well_formed(),
            final(self).tearing@ == tearing_scored(old(self).tearing@, vertices@, zoom, vertices@.len() as int),
            final(self).road == old(self).road,
            final(self).ground == old(self).ground,
    {
        let mut i: usize = 0;
        while i < vertices.len()
            invariant
                i <= vertices@.len(),
                self.well_formed(),
                self.tearing@ == tearing_scored(old(self).tearing@, vertices@, zoom, i as int),
                self.road == old(self).road,
                self.ground == old(self).ground,
            decreases vertices@.len() - i,
        {
            let v: Stand = vertices[i];
            let offender: Option<Offender> = if v.amplitude as i128 > TEARING_UM {
                Some(
                    Offender {
                        place: v.place,
                        zoom,
                        value: v.amplitude as i128,
                        note: Note::Tearing { up: v.up, down: v.down },
                    },
                )
            } else {
                None
            };
            self.tearing.record(v.amplitude as i128, offender);
            i = i + 1;
        }
    }

    /// Scores one tile: its terrain, and the faces of each of its at-grade
    /// surface bands.
    pub fn visit(&mut self, zoom: u8, terrain: &Option<Ground>, bands: &[Vec<Face>])
        requires
            old(self).well_formed(),
        ensures
            final(self).well_formed(),
            final(self).ground@ == (match terrain {
                Some(g) => faces_scored(old(self).ground@, Surface::Terrain, g.faces@, zoom, g.faces@.len() as int),
                None => old(self).ground@,
            }),
            final(self).tearing@ == (match terrain {
                Some(g) => tearing_scored(old(self).tearing@, g.vertices@, zoom, g.vertices@.len() as int),
                None => old(self).tearing@,
            }),
            final(self).road@ == bands_scored(old(self).road@, bands@, zoom, bands@.len() as int),
    {
        if let Some(g) = terrain {
            score_faces(&mut self.ground, Surface::Terrain, &g.faces, zoom);
            self.visit_terrain_tearing(zoom, &g.vertices);
        }
        let ghost ground = self.ground;
        let ghost tearing = self.tearing;
        let mut i: usize = 0;
        while i < bands.len()
            invariant
                i <= bands@.len(),
                self.well_formed(),
                self.road@ == bands_scored(old(self).road@, bands@, zoom, i as int),
                self.ground == ground,
                self.tearing == tearing,
            decreases bands@.len() - i,
        {
            score_faces(&mut self.road, Surface::Carriageway, &bands[i], zoom);
            i = i + 1;
        }
    }

    /// What the finished metrics say.
    pub open spec fn reported(&self, out: Seq<Metric>) -> bool {
        &&& out.len() == 3
        &&& out[0].reports(
            "slope.terrain_face"@,
            Invariant::I6,
            GROUND_SLOPE as int,
            self.ground@.samples.len() == 0,
            self.ground@,
        )
        &&& out[1].reports(
            "slope.carriageway_face"@,
            Invariant::I6,
            ROAD_GRADE as int,
            self.road@.samples.len() == 0,
            self.road@,
        )
        &&& out[2].reports(
            "slope.terrain_tearing"@,
            Invariant::I6,
            TEARING_UM as int,
            self.tearing@.samples.len() == 0,
            self.tearing@,
        )
    }

    pub fn finish(self) -> (out: Vec<Metric>)
        ensures
            self.reported(out@),
    {
        let mut out: Vec<Metric> = Vec::new();
        let skipped: bool = self.ground.dist.is_empty();
        out.push(Metric::close("slope.terrain_face", Invariant::I6, GROUND_SLOPE, skipped, self.ground));
        let skipped: bool = self.road.dist.is_empty();
        out.push(Metric::close("slope.carriageway_face", Invariant::I6, ROAD_GRADE, skipped, self.road));
        let skipped: bool = self.tearing.dist.is_empty();
        out.push(Metric::close("slope.terrain_tearing", Invariant::I6, TEARING_UM, skipped, self.tearing));
        out
    }
}

/// What is found at every face: its steepness, where it spans a tenth of a metre
/// and is no rim of a carriageway; past the limit above two to one on the
/// terrain, and above three tenths on a carriageway.
pub open spec fn face_found(of: Surface, f: Face, zoom: u8) -> Option<Finding> {
    if f.rise < 100_000 || (of == Surface::Carriageway && f.rim) {
        None
    } else {
        match of {
            Surface::Terrain => above(
                f.slope as int,
                2_000_000,
                Offender { place: f.place, zoom, value: f.slope as i128, note: Note::TerrainFace { rise: f.rise } },
            ),
            Surface::Carriageway => above(
                f.slope as int,
                300_000,
                Offender { place: f.place, zoom, value: f.slope as i128, note: Note::RoadFace { rise: f.rise } },
            ),
        }
    }
}

/// Every face is measured.
pub proof fn every_face_is_measured(s: Scores, of: Surface, faces: Seq<Face>, zoom: u8, found: Seq<Option<Finding>>, n: int)
    requires
        0 <= n <= faces.len() == found.len(),
        forall|i: int| 0 <= i < faces.len() ==> #[trigger] found[i] == face_found(of, faces[i], zoom),
    ensures
        faces_scored(s, of, faces, zoom, n) == gathered(s, found, n),
    decreases n,
{
    if n > 0 {
        every_face_is_measured(s, of, faces, zoom, found, n - 1);
        let f = found[n - 1];
    }
}

/// Every face of every carriageway is measured as one of a carriageway.
pub proof fn every_carriageway_is_measured(s: Scores, bands: Seq<Vec<Face>>, zoom: u8, rows: Seq<Seq<Option<Finding>>>, n: int)
    requires
        0 <= n <= bands.len() == rows.len(),
        forall|b: int| 0 <= b < bands.len() ==> (#[trigger] rows[b]).len() == bands[b]@.len(),
        forall|b: int, i: int|
            0 <= b < bands.len() && 0 <= i < rows[b].len() ==> #[trigger] rows[b][i] == face_found(
                Surface::Carriageway,
                bands[b]@[i],
                zoom,
            ),
    ensures
        bands_scored(s, bands, zoom, n) == gathered_rows(s, rows, n),
    decreases n,
{
    if n > 0 {
        every_carriageway_is_measured(s, bands, zoom, rows, n - 1);
        let b = n - 1;
        assert(rows[b].len() == bands[b]@.len());
        assert forall|i: int| 0 <= i < bands[b]@.len() implies #[trigger] rows[b][i] == face_found(
            Surface::Carriageway,
            bands[b]@[i],
            zoom,
        ) by {}
        every_face_is_measured(
            bands_scored(s, bands, zoom, n - 1),
            Surface::Carriageway,
            bands[b]@,
            zoom,
            rows[b],
            rows[b].len() as int,
        );
    }
}

/// Every interior terrain vertex is measured by how far it alternates about its
/// neighbours, past the limit above half a metre.
pub proof fn every_vertex_is_measured_for_tearing(s: Scores, v: Seq<Stand>, zoom: u8, found: Seq<Option<Finding>>, n: int)
    requires
        0 <= n <= v.len() == found.len(),
        forall|i: int|
            0 <= i < v.len() ==> #[trigger] found[i] == above(
                v[i].amplitude as int,
                500_000,
                Offender {
                    place: v[i].place,
                    zoom,
                    value: v[i].amplitude as i128,
                    note: Note::Tearing { up: v[i].up, down: v[i].down },
                },
            ),
    ensures
        tearing_scored(s, v, zoom, n) == gathered(s, found, n),
    decreases n,
{
    if n > 0 {
        every_vertex_is_measured_for_tearing(s, v, zoom, found, n - 1);
        let f = found[n - 1];
    }
}

} // verus!
