//! Vertical order, and nothing buried by accident, between the drawn solids:
//! a deck against the asphalt and the ground it shares a plan position with, a
//! bore against the ground over it, and at-grade bands against each other.
use vstd::prelude::*;
use crate::verify::{fresh, fresh_low, scored, Invariant, Metric, Note, Offender, Scores, Sense, Tally};
use crate::verify::checks::Options;
use crate::verify::scene::{below_of, find_below, lemma_below_of, Probe, RoadMesh};
use crate::verify::findings::{above, below, gathered, gathered_rows, Finding};

verus! {

/// A deck this far under the asphalt is crossing under it rather than touching
/// down on it.
pub const TOUCHDOWN_UM: i128 = -500_000;

/// How far under the ground a soffit may be beyond the deck's own thickness.
pub const BURIED_SLACK_UM: i128 = 500_000;

/// A bore roof this far above the ground is in the open air.
pub const EXPOSED_BORE_UM: i128 = -1_000_000;

/// Two at-grade bands further apart than this are stacked in the air.
pub const GRADE_STACK_UM: i128 = 3_000_000;

/// What the meshes answer at the points each road mesh was sampled at.
pub open spec fn samples_fit(roads: Seq<RoadMesh>, samples: Seq<Vec<Probe>>) -> bool {
    &&& samples.len() == roads.len()
    &&& forall|i: int, k: int|
        0 <= i < samples.len() && 0 <= k < samples[i]@.len() ==> (#[trigger] samples[i]@[k]).covers(roads)
}

/// The highest top among the first `n` meshes that is at-grade pavement here.
pub open spec fn asphalt_top(roads: Seq<RoadMesh>, p: Probe, n: int) -> Option<i64>
    decreases n,
{
    if n <= 0 {
        None
    } else {
        let best = asphalt_top(roads, p, n - 1);
        if roads[n - 1].pavement && p.ranges@[n - 1] is Some && (best is None || (p.ranges@[n - 1]->0).1 > best->0) {
            Some((p.ranges@[n - 1]->0).1)
        } else {
            best
        }
    }
}

pub open spec fn pavements(roads: Seq<RoadMesh>) -> Seq<bool> {
    Seq::new(roads.len(), |k: int| roads[k].pavement)
}

/// What is being measured.
pub enum Asked {
    Order,
    OverGround { thickness: i64 },
    BoreCover,
    Stack,
}

/// Which meshes a question is asked of.
pub open spec fn asked_of(q: Asked, r: RoadMesh) -> bool {
    match q {
        Asked::Order => r.deck,
        Asked::OverGround { .. } => r.deck,
        Asked::BoreCover => r.bore,
        Asked::Stack => r.pavement,
    }
}

pub open spec fn buried_threshold(thickness: int) -> int {
    -(thickness + BURIED_SLACK_UM)
}

/// One measurement and its note.
pub struct Measured {
    pub value: int,
    pub past: bool,
    pub note: Note,
}

/// What a question measures of mesh `i` at a point, where there is anything to
/// measure.
pub open spec fn measured(q: Asked, roads: Seq<RoadMesh>, i: int, p: Probe) -> Option<Measured> {
    let r = roads[i];
    if !p.owned || p.ranges@[i] is None {
        None
    } else {
        let (low, top) = p.ranges@[i]->0;
        match q {
            Asked::Order => match asphalt_top(roads, p, roads.len() as int) {
                Some(asphalt) => Some(
                    Measured {
                        value: top - asphalt,
                        past: top - asphalt < TOUCHDOWN_UM,
                        note: Note::DeckOrder { class: r.class, level: r.level, top, asphalt },
                    },
                ),
                None => None,
            },
            Asked::OverGround { thickness } => match p.terrain {
                Some(ground) => Some(
                    Measured {
                        value: low - ground,
                        past: low - ground < buried_threshold(thickness as int),
                        note: Note::DeckBuried { class: r.class, level: r.level, soffit: low, ground },
                    },
                ),
                None => None,
            },
            Asked::BoreCover => match p.terrain {
                Some(ground) => Some(
                    Measured {
                        value: ground - top,
                        past: ground - top < EXPOSED_BORE_UM,
                        note: Note::BoreExposed { class: r.class, level: r.level, roof: top, ground },
                    },
                ),
                None => None,
            },
            Asked::Stack => match below_of(p, pavements(roads), i, top as int, roads.len() as int) {
                Some(b) => {
                    let below = (p.ranges@[b]->0).1;
                    Some(
                        Measured {
                            value: top - below,
                            past: top - below > GRADE_STACK_UM,
                            note: Note::GradeStack { upper: r.class, own: top, lower: roads[b].class, below },
                        },
                    )
                },
                None => None,
            },
        }
    }
}

pub open spec fn point_scored(q: Asked, s: Scores, roads: Seq<RoadMesh>, i: int, p: Probe, zoom: u8) -> Scores {
    match measured(q, roads, i, p) {
        Some(m) => scored(
            s,
            m.value,
            if m.past {
                Some(Offender { place: p.place, zoom, value: m.value as i128, note: m.note })
            } else {
                None
            },
        ),
        None => s,
    }
}

/// What the first `n` points of mesh `i` add.
pub open spec fn mesh_scored(q: Asked, s: Scores, roads: Seq<RoadMesh>, i: int, points: Seq<Probe>, zoom: u8, n: int) -> Scores
    decreases n,
{
    if n <= 0 {
        s
    } else {
        point_scored(q, mesh_scored(q, s, roads, i, points, zoom, n - 1), roads, i, points[n - 1], zoom)
    }
}

/// What the first `n` meshes add.
pub open spec fn meshes_scored(q: Asked, s: Scores, roads: Seq<RoadMesh>, samples: Seq<Vec<Probe>>, zoom: u8, n: int) -> Scores
    decreases n,
{
    if n <= 0 {
        s
    } else {
        let rest = meshes_scored(q, s, roads, samples, zoom, n - 1);
        if asked_of(q, roads[n - 1]) {
            mesh_scored(q, rest, roads, n - 1, samples[n - 1]@, zoom, samples[n - 1]@.len() as int)
        } else {
            rest
        }
    }
}

/// A deck level with the asphalt it joins is no inversion, and neither is one
/// above it.
pub proof fn a_deck_at_or_over_the_road_is_no_inversion(roads: Seq<RoadMesh>, i: int, p: Probe)
    requires
        p.owned,
        p.ranges@[i] is Some,
        asphalt_top(roads, p, roads.len() as int) is Some,
        (p.ranges@[i]->0).1 >= asphalt_top(roads, p, roads.len() as int)->0,
    ensures
        measured(Asked::Order, roads, i, p) is Some,
        !(measured(Asked::Order, roads, i, p)->0.past),
        measured(Asked::Order, roads, i, p)->0.value >= 0,
{
}

/// A soffit no more than the deck's own thickness under the ground is a
/// touchdown.
pub proof fn a_touchdown_is_not_buried(roads: Seq<RoadMesh>, i: int, p: Probe, thickness: i64)
    requires
        p.owned,
        p.ranges@[i] is Some,
        p.terrain is Some,
        p.terrain->0 - (p.ranges@[i]->0).0 <= thickness,
    ensures
        measured(Asked::OverGround { thickness }, roads, i, p) is Some,
        !(measured(Asked::OverGround { thickness }, roads, i, p)->0.past),
{
}

/// A stacked pair is measured from its upper side: of two at-grade bands alone
/// at a point, the higher one measures the height between them and the lower
/// one measures nothing.
pub proof fn a_stacked_pair_is_measured_from_above(roads: Seq<RoadMesh>, p: Probe, i: int, j: int)
    requires
        0 <= i < roads.len(),
        0 <= j < roads.len(),
        i != j,
        p.owned,
        roads[i].pavement && roads[j].pavement,
        p.ranges@[i] is Some && p.ranges@[j] is Some,
        (p.ranges@[i]->0).1 > (p.ranges@[j]->0).1,
        forall|k: int|
            0 <= k < roads.len() && k != i && k != j && (#[trigger] roads[k]).pavement ==> p.ranges@[k] is None,
    ensures
        measured(Asked::Stack, roads, i, p) is Some,
        measured(Asked::Stack, roads, i, p)->0.value == (p.ranges@[i]->0).1 - (p.ranges@[j]->0).1,
        measured(Asked::Stack, roads, j, p) is None,
{
    let kept = pavements(roads);
    let n = roads.len() as int;
    lemma_below_of(p, kept, i, (p.ranges@[i]->0).1 as int, n);
    lemma_below_of(p, kept, j, (p.ranges@[j]->0).1 as int, n);
    assert(kept[j] && kept[i]);
    assert(p.ranges@[j] is Some);
    match below_of(p, kept, i, (p.ranges@[i]->0).1 as int, n) {
        Some(b) => {
            assert(roads[b].pavement);
        },
        None => {},
    }
    match below_of(p, kept, j, (p.ranges@[j]->0).1 as int, n) {
        Some(b) => {
            assert(roads[b].pavement);
        },
        None => {},
    }
}

fn find_asphalt_top(roads: &[RoadMesh], p: &Probe) -> (out: Option<i64>)
    requires
        p.covers(roads@),
    ensures
        out == asphalt_top(roads@, *p, roads@.len() as int),
{
    let mut out: Option<i64> = None;
    let mut k: usize = 0;
    while k < roads.len()
        invariant
            k <= roads@.len(),
            p.covers(roads@),
            out == asphalt_top(roads@, *p, k as int),
        decreases roads@.len() - k,
    {
        if roads[k].pavement {
            if let Some((_, top)) = p.ranges[k] {
                let higher: bool = match out {
                    None => true,
                    Some(best) => top > best,
                };
                if higher {
                    out = Some(top);
                }
            }
        }
        k = k + 1;
    }
    out
}

fn offence(past: bool, p: &Probe, zoom: u8, value: i128, note: Note) -> (out: Option<Offender>)
    ensures
        out == (if past {
            Some(Offender { place: p.place, zoom, value, note })
        } else {
            None
        }),
{
    if past {
        Some(Offender { place: p.place, zoom, value, note })
    } else {
        None
    }
}

/// The clearance check.
#[derive(Debug)]
pub struct Clearance {
    /// A deck's thickness.
    pub thickness: i64,
    pub order: Tally,
    pub over_ground: Tally,
    pub bore_cover: Tally,
    pub stack: Tally,
}

impl Clearance {
    pub open spec fn well_formed(&self) -> bool {
        &&& self.order.well_formed()
        &&& self.over_ground.well_formed()
        &&& self.bore_cover.well_formed()
        &&& self.stack.well_formed()
    }

    pub fn new(opt: &Options, thickness: i64) -> (out: Clearance)
        requires
            opt.worst_k < usize::MAX,
        ensures
            out.well_formed(),
            out.thickness == thickness,
            out.order@ == fresh_low(opt.worst_k),
            out.over_ground@ == fresh_low(opt.worst_k),
            out.bore_cover@ == fresh_low(opt.worst_k),
            out.stack@ == fresh(opt.worst_k),
    {
        Clearance {
            thickness,
            order: Tally::new(Sense::LowerIsWorse, opt.worst_k),
            over_ground: Tally::new(Sense::LowerIsWorse, opt.worst_k),
            bore_cover: Tally::new(Sense::LowerIsWorse, opt.worst_k),
            stack: Tally::new(Sense::HigherIsWorse, opt.worst_k),
        }
    }

    /// Scores one point of deck `i`.
    fn visit_deck(&mut self, roads: &[RoadMesh], i: usize, p: &Probe, zoom: u8)
        requires
            old(self).well_formed(),
            i < roads@.len(),
            p.covers(roads@),
        ensures
            final(self).well_formed(),
            final(self).thickness == old(self).thickness,
            final(self).order@ == point_scored(Asked::Order, old(self).order@, roads@, i as int, *p, zoom),
            final(self).over_ground@ == point_scored(
                Asked::OverGround { thickness: old(self).thickness },
                old(self).over_ground@,
                roads@,
                i as int,
                *p,
                zoom,
            ),
            final(self).bore_cover == old(self).bore_cover,
            final(self).stack == old(self).stack,
    {
        if !p.owned {
            return;
        }
        if let Some((soffit, top)) = p.ranges[i] {
            let r: &RoadMesh = &roads[i];
            if let Some(asphalt) = find_asphalt_top(roads, p) {
                let v: i128 = top as i128 - asphalt as i128;
                let note: Note = Note::DeckOrder { class: r.class.clone(), level: r.level, top, asphalt };
                self.order.record(v, offence(v < TOUCHDOWN_UM, p, zoom, v, note));
            }
            if let Some(ground) = p.terrain {
                let v: i128 = soffit as i128 - ground as i128;
                let note: Note = Note::DeckBuried { class: r.class.clone(), level: r.level, soffit, ground };
                let past: bool = v < -(self.thickness as i128 + BURIED_SLACK_UM);
                self.over_ground.record(v, offence(past, p, zoom, v, note));
            }
        }
    }

    /// Scores one point of at-grade band `i`.
    fn visit_band(&mut self, roads: &[RoadMesh], kept: &Vec<bool>, i: usize, p: &Probe, zoom: u8)
        requires
            old(self).well_formed(),
            i < roads@.len(),
            p.covers(roads@),
            kept@ == pavements(roads@),
        ensures
            final(self).well_formed(),
            final(self).thickness == old(self).thickness,
            final(self).stack@ == point_scored(Asked::Stack, old(self).stack@, roads@, i as int, *p, zoom),
            final(self).order == old(self).order,
            final(self).over_ground == old(self).over_ground,
            final(self).bore_cover == old(self).bore_cover,
    {
        if !p.owned {
            return;
        }
        if let Some((_, own)) = p.ranges[i] {
            if let Some((b, below)) = find_below(p, kept, i, own) {
                let v: i128 = own as i128 - below as i128;
                let note: Note = Note::GradeStack {
                    upper: roads[i].class.clone(),
                    own,
                    lower: roads[b].class.clone(),
                    below,
                };
                self.stack.record(v, offence(v > GRADE_STACK_UM, p, zoom, v, note));
            }
        }
    }

    /// Scores one point of bore `i`.
    fn visit_bore(&mut self, roads: &[RoadMesh], i: usize, p: &Probe, zoom: u8)
        requires
            old(self).well_formed(),
            i < roads@.len(),
            p.covers(roads@),
        ensures
            final(self).well_formed(),
            final(self).thickness == old(self).thickness,
            final(self).bore_cover@ == point_scored(Asked::BoreCover, old(self).bore_cover@, roads@, i as int, *p, zoom),
            final(self).order == old(self).order,
            final(self).over_ground == old(self).over_ground,
            final(self).stack == old(self).stack,
    {
        if !p.owned {
            return;
        }
        if let Some((_, roof)) = p.ranges[i] {
            if let Some(ground) = p.terrain {
                let r: &RoadMesh = &roads[i];
                let v: i128 = ground as i128 - roof as i128;
                let note: Note = Note::BoreExposed { class: r.class.clone(), level: r.level, roof, ground };
                self.bore_cover.record(v, offence(v < EXPOSED_BORE_UM, p, zoom, v, note));
            }
        }
    }

    /// Scores one tile from what the meshes answer at the points each road mesh
    /// was sampled at. A tile without terrain answers no ground anywhere.
    pub fn visit(&mut self, zoom: u8, roads: &[RoadMesh], samples: &[Vec<Probe>])
        requires
            old(self).well_formed(),
            samples_fit(roads@, samples@),
        ensures
            final(self).well_formed(),
            final(self).thickness == old(self).thickness,
            final(self).order@ == meshes_scored(
                Asked::Order,
                old(self).order@,
                roads@,
                samples@,
                zoom,
                roads@.len() as int,
            ),
            final(self).over_ground@ == meshes_scored(
                Asked::OverGround { thickness: old(self).thickness },
                old(self).over_ground@,
                roads@,
                samples@,
                zoom,
                roads@.len() as int,
            ),
            final(self).bore_cover@ == meshes_scored(
                Asked::BoreCover,
                old(self).bore_cover@,
                roads@,
                samples@,
                zoom,
                roads@.len() as int,
            ),
            final(self).stack@ == meshes_scored(
                Asked::Stack,
                old(self).stack@,
                roads@,
                samples@,
                zoom,
                roads@.len() as int,
            ),
    {
        let mut kept: Vec<bool> = Vec::new();
        let mut k: usize = 0;
        while k < roads.len()
            invariant
                k <= roads@.len(),
                kept@.len() == k,
                forall|i: int| 0 <= i < k ==> #[trigger] kept@[i] == roads@[i].pavement,
            decreases roads@.len() - k,
        {
            kept.push(roads[k].pavement);
            k = k + 1;
        }
        assert(kept@ =~= pavements(roads@));
        let ghost ground = Asked::OverGround { thickness: self.thickness };
        let mut i: usize = 0;
        while i < roads.len()
            invariant
                i <= roads@.len(),
                samples_fit(roads@, samples@),
                kept@ == pavements(roads@),
                ground == (Asked::OverGround { thickness: old(self).thickness }),
                self.well_formed(),
                self.thickness == old(self).thickness,
                self.order@ == meshes_scored(Asked::Order, old(self).order@, roads@, samples@, zoom, i as int),
                self.over_ground@ == meshes_scored(ground, old(self).over_ground@, roads@, samples@, zoom, i as int),
                self.bore_cover@ == meshes_scored(Asked::BoreCover, old(self).bore_cover@, roads@, samples@, zoom, i as int),
                self.stack@ == meshes_scored(Asked::Stack, old(self).stack@, roads@, samples@, zoom, i as int),
            decreases roads@.len() - i,
        {
            let points: &Vec<Probe> = &samples[i];
            let ghost at = *self;
            let deck: bool = roads[i].deck;
            let band: bool = roads[i].pavement;
            let bore: bool = roads[i].bore;
            let mut v: usize = 0;
            while v < points.len()
                invariant
                    v <= points@.len(),
                    i < roads@.len(),
                    points@ == samples@[i as int]@,
                    samples_fit(roads@, samples@),
                    kept@ == pavements(roads@),
                    ground == (Asked::OverGround { thickness: old(self).thickness }),
                    self.well_formed(),
                    self.thickness == old(self).thickness,
                    self.order@ == (if deck {
                        mesh_scored(Asked::Order, at.order@, roads@, i as int, points@, zoom, v as int)
                    } else {
                        at.order@
                    }),
                    self.over_ground@ == (if deck {
                        mesh_scored(ground, at.over_ground@, roads@, i as int, points@, zoom, v as int)
                    } else {
                        at.over_ground@
                    }),
                    self.bore_cover@ == (if bore {
                        mesh_scored(Asked::BoreCover, at.bore_cover@, roads@, i as int, points@, zoom, v as int)
                    } else {
                        at.bore_cover@
                    }),
                    self.stack@ == (if band {
                        mesh_scored(Asked::Stack, at.stack@, roads@, i as int, points@, zoom, v as int)
                    } else {
                        at.stack@
                    }),
                decreases points@.len() - v,
            {
                let p: &Probe = &points[v];
                assert(samples@[i as int]@[v as int].covers(roads@));
                if deck {
                    self.visit_deck(roads, i, p, zoom);
                }
                if band {
                    self.visit_band(roads, &kept, i, p, zoom);
                }
                if bore {
                    self.visit_bore(roads, i, p, zoom);
                }
                v = v + 1;
            }
            i = i + 1;
        }
    }

    /// What the finished metrics say.
    pub open spec fn reported(&self, out: Seq<Metric>) -> bool {
        &&& out.len() == 4
        &&& out[0].reports(
            "order.deck_above_carriageway"@,
            Invariant::I3,
            TOUCHDOWN_UM as int,
            self.order@.samples.len() == 0,
            self.order@,
        )
        &&& out[1].reports(
            "clearance.deck_over_ground"@,
            Invariant::I4,
            buried_threshold(self.thickness as int),
            self.over_ground@.samples.len() == 0,
            self.over_ground@,
        )
        &&& out[2].reports(
            "clearance.bore_cover"@,
            Invariant::I4,
            EXPOSED_BORE_UM as int,
            self.bore_cover@.samples.len() == 0,
            self.bore_cover@,
        )
        &&& out[3].reports(
            "order.grade_stack"@,
            Invariant::I3,
            GRADE_STACK_UM as int,
            self.stack@.samples.len() == 0,
            self.stack@,
        )
    }

    pub fn finish(self) -> (out: Vec<Metric>)
        ensures
            self.reported(out@),
    {
        let mut out: Vec<Metric> = Vec::new();
        let skipped: bool = self.order.dist.is_empty();
        out.push(Metric::close("order.deck_above_carriageway", Invariant::I3, TOUCHDOWN_UM, skipped, self.order));
        let skipped: bool = self.over_ground.dist.is_empty();
        let buried: i128 = -(self.thickness as i128 + BURIED_SLACK_UM);
        out.push(Metric::close("clearance.deck_over_ground", Invariant::I4, buried, skipped, self.over_ground));
        let skipped: bool = self.bore_cover.dist.is_empty();
        out.push(Metric::close("clearance.bore_cover", Invariant::I4, EXPOSED_BORE_UM, skipped, self.bore_cover));
        let skipped: bool = self.stack.dist.is_empty();
        out.push(Metric::close("order.grade_stack", Invariant::I3, GRADE_STACK_UM, skipped, self.stack));
        out
    }
}

/// The asphalt at a point is the highest top of the at-grade pavement there.
pub proof fn the_asphalt_is_the_highest_pavement(roads: Seq<RoadMesh>, p: Probe, n: int)
    requires
        0 <= n <= roads.len(),
    ensures
        match asphalt_top(roads, p, n) {
            Some(h) => {
                &&& exists|k: int|
                    0 <= k < n && (#[trigger] roads[k]).pavement && (p.ranges@[k] matches Some(r) && r.1 == h)
                &&& forall|k: int|
                    0 <= k < n && (#[trigger] roads[k]).pavement ==> (p.ranges@[k] matches Some(r) ==> r.1 <= h)
            },
            None => forall|k: int| 0 <= k < n && (#[trigger] roads[k]).pavement ==> p.ranges@[k] is None,
        },
    decreases n,
{
    if n > 0 {
        the_asphalt_is_the_highest_pavement(roads, p, n - 1);
        let was = asphalt_top(roads, p, n - 1);
        let now = asphalt_top(roads, p, n);
        if was is Some && now == was {
            let k = choose|k: int|
                0 <= k < n - 1 && (#[trigger] roads[k]).pavement && (p.ranges@[k] matches Some(r) && r.1 == was->0);
            assert(roads[k].pavement);
        } else if now is Some {
            assert(roads[n - 1].pavement);
        }
    }
}

/// What is found at a point a mesh was sampled at, where the point is owned and
/// the mesh answers there. A deck: how far its top is above the asphalt, past the
/// limit half a metre below it; and how far its soffit is above the ground, past
/// the limit its thickness and half a metre below it. A bore: how far the ground
/// is above its roof, past the limit a metre below it. A band: how far it is
/// above the band under it, past the limit above three metres.
pub open spec fn point_found(q: Asked, roads: Seq<RoadMesh>, i: int, p: Probe, zoom: u8) -> Option<Finding> {
    let r = roads[i];
    if !p.owned || p.ranges@[i] is None {
        None
    } else {
        let low = (p.ranges@[i]->0).0;
        let top = (p.ranges@[i]->0).1;
        let asphalt = asphalt_top(roads, p, roads.len() as int);
        let under = below_of(p, pavements(roads), i, top as int, roads.len() as int);
        match q {
            Asked::Order => if asphalt is None {
                None
            } else {
                below(
                    top - asphalt->0,
                    -500_000,
                    Offender {
                        place: p.place,
                        zoom,
                        value: (top - asphalt->0) as i128,
                        note: Note::DeckOrder { class: r.class, level: r.level, top, asphalt: asphalt->0 },
                    },
                )
            },
            Asked::OverGround { thickness } => if p.terrain is None {
                None
            } else {
                below(
                    low - p.terrain->0,
                    -500_000 - thickness,
                    Offender {
                        place: p.place,
                        zoom,
                        value: (low - p.terrain->0) as i128,
                        note: Note::DeckBuried { class: r.class, level: r.level, soffit: low, ground: p.terrain->0 },
                    },
                )
            },
            Asked::BoreCover => if p.terrain is None {
                None
            } else {
                below(
                    p.terrain->0 - top,
                    -1_000_000,
                    Offender {
                        place: p.place,
                        zoom,
                        value: (p.terrain->0 - top) as i128,
                        note: Note::BoreExposed { class: r.class, level: r.level, roof: top, ground: p.terrain->0 },
                    },
                )
            },
            Asked::Stack => if under is None {
                None
            } else {
                let lower = (p.ranges@[under->0]->0).1;
                above(
                    top - lower,
                    3_000_000,
                    Offender {
                        place: p.place,
                        zoom,
                        value: (top - lower) as i128,
                        note: Note::GradeStack { upper: r.class, own: top, lower: roads[under->0].class, below: lower },
                    },
                )
            },
        }
    }
}

/// Whether a mesh is one a question is about: decks for order and burial, bores
/// for their cover, at-grade bands for stacks.
pub open spec fn is_about(q: Asked, r: RoadMesh) -> bool {
    ||| (q is Order || q is OverGround) && r.deck
    ||| q is BoreCover && r.bore
    ||| q is Stack && r.pavement
}

pub open spec fn points_found(q: Asked, roads: Seq<RoadMesh>, samples: Seq<Vec<Probe>>, zoom: u8, rows: Seq<Seq<Option<Finding>>>) -> bool {
    &&& rows.len() == roads.len()
    &&& forall|i: int|
        0 <= i < roads.len() ==> (#[trigger] rows[i]).len() == if is_about(q, roads[i]) {
            samples[i]@.len()
        } else {
            0
        }
    &&& forall|i: int, k: int|
        0 <= i < roads.len() && 0 <= k < rows[i].len() ==> #[trigger] rows[i][k] == point_found(
            q,
            roads,
            i,
            samples[i]@[k],
            zoom,
        )
}

/// Every point of every mesh a question is about is measured.
pub proof fn every_point_is_measured(q: Asked, s: Scores, roads: Seq<RoadMesh>, samples: Seq<Vec<Probe>>, zoom: u8, rows: Seq<Seq<Option<Finding>>>, n: int)
    requires
        0 <= n <= roads.len(),
        points_found(q, roads, samples, zoom, rows),
    ensures
        meshes_scored(q, s, roads, samples, zoom, n) == gathered_rows(s, rows, n),
    decreases n,
{
    if n > 0 {
        every_point_is_measured(q, s, roads, samples, zoom, rows, n - 1);
        let i = n - 1;
        assert(rows[i].len() == if is_about(q, roads[i]) {
            samples[i]@.len()
        } else {
            0
        });
        assert(is_about(q, roads[i]) == asked_of(q, roads[i]));
        if is_about(q, roads[i]) {
            lemma_points_found(q, meshes_scored(q, s, roads, samples, zoom, n - 1), roads, samples, zoom, rows, i, rows[i].len() as int);
        }
    }
}

proof fn lemma_points_found(q: Asked, s: Scores, roads: Seq<RoadMesh>, samples: Seq<Vec<Probe>>, zoom: u8, rows: Seq<Seq<Option<Finding>>>, i: int, n: int)
    requires
        0 <= i < roads.len(),
        0 <= n <= rows[i].len(),
        is_about(q, roads[i]),
        points_found(q, roads, samples, zoom, rows),
    ensures
        mesh_scored(q, s, roads, i, samples[i]@, zoom, n) == gathered(s, rows[i], n),
    decreases n,
{
    if n > 0 {
        lemma_points_found(q, s, roads, samples, zoom, rows, i, n - 1);
        let f = rows[i][n - 1];
        assert(f == point_found(q, roads, i, samples[i]@[n - 1], zoom));
    }
}

} // verus!
