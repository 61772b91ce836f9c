//! Does the road survive the handoff at a bridge's end, read from its strokes?
//!
//! Pieces of one road share their cut vertex, so two strokes that meet at a
//! structure end started life as one point and any distance between them was
//! put there. Each carried end is paired with the nearest aligned end of its
//! own class, and the pair is measured once.
use vstd::prelude::*;
use crate::arith::{abs, distance};
use crate::text::is_name;
use crate::verify::{fresh, scored, Invariant, Metric, Note, Offender, Place, Scores, Sense, Tally};
use crate::verify::checks::Options;
use crate::verify::scene::{any_paved, bump, bumped, draws_asphalt, paved_at, paved_height, Probe, RoadMesh};

pub mod found;

verus! {

/// How far apart in plan two ends may be and still be one abutment.
pub const PAIR_MAX_UM: u64 = 12_000_000;

/// How far two ends may turn from facing each other and still be one road, in
/// millionths of a radian.
pub const PAIR_MAX_TURN: u64 = 600_000;

/// What counts as moved.
pub const BREAK_UM: i128 = 50_000;

/// How far the approach is followed looking for asphalt, and in what steps.
pub const BARE_STEPS: usize = 120;

pub const BARE_STEP_UM: i128 = 250_000;

/// How far a stroke may sit from where a solid carries its road.
pub const CARRIED_SLACK_UM: i128 = 1_000_000;

/// Another end as seen from this one: how far away it is, and how far its
/// heading is from the opposite of this one's, in millionths of a radian.
#[derive(Clone, Copy, Debug, PartialEq, Eq, Structural)]
pub struct Facing {
    pub end: usize,
    pub distance: u64,
    pub turn: u64,
}

/// One end of a drawn road stroke: what the meshes answer at it, the other ends
/// in order, and the points marched from it into its approach.
#[derive(Debug)]
pub struct End {
    pub class: String,
    /// Whether the class draws a surface band of its own.
    pub paves: bool,
    pub height: i64,
    pub at: Probe,
    pub facing: Vec<Facing>,
    pub approach: Vec<Probe>,
}

pub open spec fn end_fits(roads: Seq<RoadMesh>, ends: Seq<End>, e: End) -> bool {
    &&& e.at.covers(roads)
    &&& forall|k: int| 0 <= k < e.facing@.len() ==> (#[trigger] e.facing@[k]).end < ends.len()
    &&& forall|k: int| 0 <= k < e.approach@.len() ==> (#[trigger] e.approach@[k]).covers(roads)
}

pub open spec fn ends_fit(roads: Seq<RoadMesh>, ends: Seq<End>) -> bool {
    forall|i: int| 0 <= i < ends.len() ==> end_fits(roads, ends, #[trigger] ends[i])
}

/// Whether an end is the road's own stroke: not paint, and of a class that
/// draws a band.
pub open spec fn counts(e: End) -> bool {
    e.class@ != "marking"@ && e.paves
}

/// A solid whose ends are cut from the road: a solved deck or bore.
pub open spec fn is_solid(r: RoadMesh) -> bool {
    (r.deck || r.bore) && !r.fitted
}

/// Whether a solid carries a stroke at height `h`: a deck on its top, a bore on
/// its floor plus the deck thickness.
pub open spec fn solid_carries(r: RoadMesh, range: Option<(i64, i64)>, h: int, thickness: int) -> bool {
    is_solid(r) && range is Some && abs(
        h - (if r.bore {
            (range->0).0 + thickness
        } else {
            (range->0).1 as int
        }),
    ) <= CARRIED_SLACK_UM
}

/// Whether a drawn structure carries an end.
pub open spec fn carried(roads: Seq<RoadMesh>, e: End, thickness: int) -> bool {
    exists|k: int|
        0 <= k < roads.len() && solid_carries(#[trigger] roads[k], e.at.ranges@[k], e.height as int, thickness)
}

/// Whether an end may be paired with another: of its own class, near, and
/// facing it.
pub open spec fn may_pair(ends: Seq<End>, i: int, f: Facing) -> bool {
    let g = ends[f.end as int];
    f.end != i && counts(g) && g.class@ == ends[i].class@ && f.distance <= PAIR_MAX_UM
        && f.turn <= PAIR_MAX_TURN
}

/// The partner of an end among the first `n` it faces: the nearest of its own
/// class within the pairing reach, the earliest on a tie.
pub open spec fn partner_of(ends: Seq<End>, i: int, n: int) -> Option<Facing>
    decreases n,
{
    if n <= 0 {
        None
    } else {
        let best = partner_of(ends, i, n - 1);
        let f = ends[i].facing@[n - 1];
        if may_pair(ends, i, f) && (best is None || f.distance < best->0.distance) {
            Some(f)
        } else {
            best
        }
    }
}

pub open spec fn partner(ends: Seq<End>, i: int) -> Option<Facing> {
    partner_of(ends, i, ends[i].facing@.len() as int)
}

/// How much bare ground the march from step `k` on finds before asphalt: none
/// when it leaves the tile or saturates.
pub open spec fn bare_from(roads: Seq<RoadMesh>, approach: Seq<Probe>, k: int) -> Option<int>
    decreases BARE_STEPS + 1 - k,
{
    if k < 0 || k > BARE_STEPS || k >= approach.len() || !approach[k].owned {
        None
    } else if paved_height(roads, approach[k], roads.len() as int) is Some {
        Some(k * BARE_STEP_UM)
    } else {
        bare_from(roads, approach, k + 1)
    }
}

/// The bare ground of a pair: asked of the approach half only, on a tile that
/// draws asphalt.
pub open spec fn bare_of(roads: Seq<RoadMesh>, g: End, thickness: int) -> Option<int> {
    if !any_paved(roads) || carried(roads, g, thickness) {
        None
    } else {
        bare_from(roads, g.approach@, 0)
    }
}

/// Everything the check holds.
pub struct Held {
    pub plan: Scores,
    pub step: Scores,
    pub bare: Scores,
    pub unpaired: u64,
    pub paired: u64,
    pub second_half: u64,
}

pub open spec fn offence(past: bool, place: Place, zoom: u8, value: int, note: Note) -> Option<Offender> {
    if past {
        Some(Offender { place, zoom, value: value as i128, note })
    } else {
        None
    }
}

/// What one end adds. Only carried ends the tile owns are asked; a pair of two
/// carried ends is measured once, from its lower number.
pub open spec fn end_held(h: Held, roads: Seq<RoadMesh>, ends: Seq<End>, i: int, thickness: int, zoom: u8) -> Held {
    let s = ends[i];
    if !counts(s) || !carried(roads, s, thickness) || !s.at.owned {
        h
    } else {
        match partner(ends, i) {
            None => Held { unpaired: bumped(h.unpaired), ..h },
            Some(f) => {
                let g = ends[f.end as int];
                if carried(roads, g, thickness) && f.end < i {
                    Held { second_half: bumped(h.second_half), ..h }
                } else {
                    let step = abs(s.height - g.height);
                    let bare = bare_of(roads, g, thickness);
                    Held {
                        paired: bumped(h.paired),
                        plan: scored(
                            h.plan,
                            f.distance as int,
                            offence(
                                f.distance > BREAK_UM,
                                s.at.place,
                                zoom,
                                f.distance as int,
                                Note::AbutmentPlan { class: s.class, step: step as u64 },
                            ),
                        ),
                        step: scored(
                            h.step,
                            step,
                            offence(
                                step > BREAK_UM,
                                s.at.place,
                                zoom,
                                step,
                                Note::AbutmentStep { class: s.class, above: s.height > g.height, plan: f.distance },
                            ),
                        ),
                        bare: match bare {
                            None => h.bare,
                            Some(b) => scored(
                                h.bare,
                                b,
                                offence(b > BREAK_UM, g.at.place, zoom, b, Note::AbutmentBare { class: s.class }),
                            ),
                        },
                        ..h
                    }
                }
            },
        }
    }
}

/// What the first `n` ends add.
pub open spec fn ends_held(h: Held, roads: Seq<RoadMesh>, ends: Seq<End>, thickness: int, zoom: u8, n: int) -> Held
    decreases n,
{
    if n <= 0 {
        h
    } else {
        end_held(ends_held(h, roads, ends, thickness, zoom, n - 1), roads, ends, n - 1, thickness, zoom)
    }
}

pub open spec fn any_solid(roads: Seq<RoadMesh>) -> bool {
    exists|k: int| 0 <= k < roads.len() && is_solid(#[trigger] roads[k])
}

proof fn lemma_partner(ends: Seq<End>, i: int, n: int)
    requires
        0 <= n <= ends[i].facing@.len(),
    ensures
        match partner_of(ends, i, n) {
            Some(f) => {
                &&& may_pair(ends, i, f)
                &&& forall|k: int|
                    0 <= k < n && may_pair(ends, i, #[trigger] ends[i].facing@[k]) ==> f.distance <= ends[i].facing@[k].distance
            },
            None => forall|k: int| 0 <= k < n ==> !may_pair(ends, i, #[trigger] ends[i].facing@[k]),
        },
    decreases n,
{
    if n > 0 {
        lemma_partner(ends, i, n - 1);
    }
}

/// An end is paired exactly when it faces one it may pair with, and then with
/// the nearest of them.
pub proof fn a_pair_is_the_nearest_of_its_class(ends: Seq<End>, i: int)
    ensures
        match partner(ends, i) {
            Some(f) => {
                &&& may_pair(ends, i, f)
                &&& forall|k: int|
                    0 <= k < ends[i].facing@.len() && may_pair(ends, i, #[trigger] ends[i].facing@[k]) ==> f.distance
                        <= ends[i].facing@[k].distance
            },
            None => forall|k: int|
                0 <= k < ends[i].facing@.len() ==> !may_pair(ends, i, #[trigger] ends[i].facing@[k]),
        },
{
    lemma_partner(ends, i, ends[i].facing@.len() as int);
}

/// A flush joint is measured once: of two carried ends that are each other's
/// partners, the lower-numbered one adds a sample and the other adds none.
pub proof fn a_flush_joint_is_measured_once(h: Held, roads: Seq<RoadMesh>, ends: Seq<End>, i: int, j: int, thickness: int, zoom: u8)
    requires
        0 <= i < j < ends.len(),
        counts(ends[i]) && counts(ends[j]),
        carried(roads, ends[i], thickness) && carried(roads, ends[j], thickness),
        ends[i].at.owned && ends[j].at.owned,
        partner(ends, i) is Some && partner(ends, i)->0.end == j,
        partner(ends, j) is Some && partner(ends, j)->0.end == i,
    ensures
        end_held(h, roads, ends, i, thickness, zoom).plan.samples.len() == h.plan.samples.len() + 1,
        end_held(h, roads, ends, i, thickness, zoom).step.samples.len() == h.step.samples.len() + 1,
        end_held(h, roads, ends, j, thickness, zoom).plan == h.plan,
        end_held(h, roads, ends, j, thickness, zoom).step == h.step,
        end_held(h, roads, ends, j, thickness, zoom).bare == h.bare,
{
}

fn is_carried(roads: &[RoadMesh], e: &End, thickness: i64) -> (yes: bool)
    requires
        e.at.covers(roads@),
    ensures
        yes == carried(roads@, *e, thickness as int),
{
    let mut k: usize = 0;
    while k < roads.len()
        invariant
            k <= roads@.len(),
            e.at.covers(roads@),
            forall|i: int|
                0 <= i < k ==> !solid_carries(#[trigger] roads@[i], e.at.ranges@[i], e.height as int, thickness as int),
        decreases roads@.len() - k,
    {
        let r: &RoadMesh = &roads[k];
        if (r.deck || r.bore) && !r.fitted {
            if let Some((lo, hi)) = e.at.ranges[k] {
                let road: i128 = if r.bore { lo as i128 + thickness as i128 } else { hi as i128 };
                let off: i128 = e.height as i128 - road;
                if off <= CARRIED_SLACK_UM && -CARRIED_SLACK_UM <= off {
                    assert(solid_carries(roads@[k as int], e.at.ranges@[k as int], e.height as int, thickness as int));
                    return true;
                }
            }
        }
        k = k + 1;
    }
    false
}

fn find_partner(ends: &[End], i: usize) -> (out: Option<Facing>)
    requires
        i < ends@.len(),
        forall|k: int| 0 <= k < ends@[i as int].facing@.len() ==> (#[trigger] ends@[i as int].facing@[k]).end < ends@.len(),
    ensures
        out == partner(ends@, i as int),
        out is Some ==> out->0.end < ends@.len(),
{
    let s: &End = &ends[i];
    let mut best: Option<Facing> = None;
    let mut k: usize = 0;
    while k < s.facing.len()
        invariant
            k <= s.facing@.len(),
            i < ends@.len(),
            *s == ends@[i as int],
            forall|j: int| 0 <= j < s.facing@.len() ==> (#[trigger] s.facing@[j]).end < ends@.len(),
            best == partner_of(ends@, i as int, k as int),
            best is Some ==> best->0.end < ends@.len(),
        decreases s.facing@.len() - k,
    {
        let f: Facing = s.facing[k];
        assert(s.facing@[k as int].end < ends@.len());
        let g: &End = &ends[f.end];
        if f.end != i && f.distance <= PAIR_MAX_UM && f.turn <= PAIR_MAX_TURN && g.paves && !is_name(
            &g.class,
            "marking",
        ) && g.class == s.class {
            let better: bool = match best {
                None => true,
                Some(b) => f.distance < b.distance,
            };
            if better {
                best = Some(f);
            }
        }
        k = k + 1;
    }
    best
}

fn find_bare(roads: &[RoadMesh], approach: &Vec<Probe>) -> (out: Option<i128>)
    requires
        forall|k: int| 0 <= k < approach@.len() ==> (#[trigger] approach@[k]).covers(roads@),
    ensures
        match bare_from(roads@, approach@, 0) {
            Some(d) => out is Some && out->0 == d,
            None => out is None,
        },
{
    let mut k: usize = 0;
    while k <= BARE_STEPS && k < approach.len()
        invariant
            k <= BARE_STEPS + 1,
            k <= approach@.len(),
            forall|j: int| 0 <= j < approach@.len() ==> (#[trigger] approach@[j]).covers(roads@),
            bare_from(roads@, approach@, 0) == bare_from(roads@, approach@, k as int),
        decreases BARE_STEPS + 1 - k,
    {
        assert(approach@[k as int].covers(roads@));
        if !approach[k].owned {
            return None;
        }
        if paved_at(roads, &approach[k]).is_some() {
            return Some(k as i128 * BARE_STEP_UM);
        }
        k = k + 1;
    }
    None
}

/// The abutment check.
#[derive(Debug)]
pub struct Abutment {
    pub plan: Tally,
    pub step: Tally,
    pub bare: Tally,
    /// Carried ends that found no partner.
    pub unpaired: u64,
    pub paired: u64,
    /// Carried ends whose pair was measured from its other half.
    pub second_half: u64,
}

impl Abutment {
    pub open spec fn well_formed(&self) -> bool {
        self.plan.well_formed() && self.step.well_formed() && self.bare.well_formed()
    }

    pub open spec fn view(&self) -> Held {
        Held {
            plan: self.plan@,
            step: self.step@,
            bare: self.bare@,
            unpaired: self.unpaired,
            paired: self.paired,
            second_half: self.second_half,
        }
    }

    pub fn new(opt: &Options) -> (out: Abutment)
        requires
            opt.worst_k < usize::MAX,
        ensures
            out.well_formed(),
            out@ == (Held {
                plan: fresh(opt.worst_k),
                step: fresh(opt.worst_k),
                bare: fresh(opt.worst_k),
                unpaired: 0,
                paired: 0,
                second_half: 0,
            }),
    {
        Abutment {
            plan: Tally::new(Sense::HigherIsWorse, opt.worst_k),
            step: Tally::new(Sense::HigherIsWorse, opt.worst_k),
            bare: Tally::new(Sense::HigherIsWorse, opt.worst_k),
            unpaired: 0,
            paired: 0,
            second_half: 0,
        }
    }

    /// Scores one end.
    fn visit_end(&mut self, roads: &[RoadMesh], ends: &[End], i: usize, thickness: i64, zoom: u8, asphalt: bool)
        requires
            old(self).well_formed(),
            i < ends@.len(),
            ends_fit(roads@, ends@),
            asphalt == any_paved(roads@),
        ensures
            final(self).well_formed(),
            final(self)@ == end_held(old(self)@, roads@, ends@, i as int, thickness as int, zoom),
    {
        let s: &End = &ends[i];
        assert(end_fits(roads@, ends@, ends@[i as int]));
        if is_name(&s.class, "marking") || !s.paves || !s.at.owned || !is_carried(roads, s, thickness) {
            return;
        }
        match find_partner(ends, i) {
            None => {
                self.unpaired = bump(self.unpaired);
            },
            Some(f) => {
                let g: &End = &ends[f.end];
                assert(end_fits(roads@, ends@, ends@[f.end as int]));
                let both: bool = is_carried(roads, g, thickness);
                if both && f.end < i {
                    self.second_half = bump(self.second_half);
                    return;
                }
                self.paired = bump(self.paired);
                let plan: i128 = f.distance as i128;
                let step: u64 = distance(s.height, g.height);
                let offender: Option<Offender> = if plan > BREAK_UM {
                    Some(
                        Offender {
                            place: s.at.place,
                            zoom,
                            value: plan,
                            note: Note::AbutmentPlan { class: s.class.clone(), step },
                        },
                    )
                } else {
                    None
                };
                self.plan.record(plan, offender);
                let offender: Option<Offender> = if step as i128 > BREAK_UM {
                    Some(
                        Offender {
                            place: s.at.place,
                            zoom,
                            value: step as i128,
                            note: Note::AbutmentStep {
                                class: s.class.clone(),
                                above: s.height > g.height,
                                plan: f.distance,
                            },
                        },
                    )
                } else {
                    None
                };
                self.step.record(step as i128, offender);
                if asphalt && !both {
                    if let Some(bare) = find_bare(roads, &g.approach) {
                        let offender: Option<Offender> = if bare > BREAK_UM {
                            Some(
                                Offender {
                                    place: g.at.place,
                                    zoom,
                                    value: bare,
                                    note: Note::AbutmentBare { class: s.class.clone() },
                                },
                            )
                        } else {
                            None
                        };
                        self.bare.record(bare, offender);
                    }
                }
            },
        }
    }

    /// Scores one tile: nothing where it draws no solved structure.
    /// `thickness` is a deck's thickness.
    pub fn visit(&mut self, zoom: u8, roads: &[RoadMesh], ends: &[End], thickness: i64)
        requires
            old(self).well_formed(),
            ends_fit(roads@, ends@),
        ensures
            final(self).well_formed(),
            final(self)@ == (if any_solid(roads@) {
                ends_held(old(self)@, roads@, ends@, thickness as int, zoom, ends@.len() as int)
            } else {
                old(self)@
            }),
    {
        let mut any: bool = false;
        let mut k: usize = 0;
        while k < roads.len()
            invariant
                k <= roads@.len(),
                any == exists|i: int| 0 <= i < k && is_solid(#[trigger] roads@[i]),
            decreases roads@.len() - k,
        {
            if (roads[k].deck || roads[k].bore) && !roads[k].fitted {
                assert(is_solid(roads@[k as int]));
                any = true;
            }
            k = k + 1;
        }
        if !any {
            return;
        }
        let asphalt: bool = draws_asphalt(roads);
        let ghost start = self@;
        let mut i: usize = 0;
        while i < ends.len()
            invariant
                i <= ends@.len(),
                ends_fit(roads@, ends@),
                asphalt == any_paved(roads@),
                self.well_formed(),
                self@ == ends_held(start, roads@, ends@, thickness as int, zoom, i as int),
            decreases ends@.len() - i,
        {
            self.visit_end(roads, ends, i, thickness, zoom, asphalt);
            i = i + 1;
        }
    }

    /// What the finished metrics say.
    pub open spec fn reported(&self, out: Seq<Metric>) -> bool {
        &&& out.len() == 3
        &&& out[0].reports(
            "seam.abutment_plan"@,
            Invariant::I2,
            BREAK_UM as int,
            self.plan@.samples.len() == 0,
            self.plan@,
        )
        &&& out[1].reports(
            "seam.abutment_step"@,
            Invariant::I2,
            BREAK_UM as int,
            self.step@.samples.len() == 0,
            self.step@,
        )
        &&& out[2].reports(
            "seam.abutment_bare"@,
            Invariant::I2,
            BREAK_UM as int,
            self.bare@.samples.len() == 0,
            self.bare@,
        )
    }

    pub fn finish(self) -> (out: Vec<Metric>)
        ensures
            self.reported(out@),
    {
        let mut out: Vec<Metric> = Vec::new();
        let skipped: bool = self.plan.dist.is_empty();
        out.push(Metric::close("seam.abutment_plan", Invariant::I2, BREAK_UM, skipped, self.plan));
        let skipped: bool = self.step.dist.is_empty();
        out.push(Metric::close("seam.abutment_step", Invariant::I2, BREAK_UM, skipped, self.step));
        let skipped: bool = self.bare.dist.is_empty();
        out.push(Metric::close("seam.abutment_bare", Invariant::I2, BREAK_UM, skipped, self.bare));
        out
    }
}

} // verus!
