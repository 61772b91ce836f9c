//! Does the drawn road surface survive the handoff at a bridge's end?
//!
//! Every edge of a surface band's silhouette is marched along its outward
//! normal. Where the march reaches a deck of the band's own kind at the band's
//! own height, the edge is an abutment, and two things are measured across it:
//! the bare ground between the last drawn surface and the deck, and the height
//! the surface jumps.
use vstd::prelude::*;
use crate::arith::{abs, distance};
use crate::text::{has_prefix, is_name, starts_with};
use crate::verify::{fresh, scored, Invariant, Metric, Note, Offender, Place, Scores, Sense, Tally};
use crate::verify::checks::Options;
use crate::verify::scene::{bump, bumped, Probe, RoadMesh};
use crate::verify::findings::{above, gathered, Finding};

verus! {

/// How many points a march asks about, and how far apart they stand.
pub const MARCH_STEPS: usize = 120;

pub const STEP_UM: i64 = 100_000;

/// What counts as bare, and what counts as a step.
pub const BARE_UM: i128 = 150_000;

pub const STEP_BREAK_UM: i128 = 50_000;

/// How far a band's height may sit outside a deck's own vertical range and
/// still count as handed over to it. A deck answering over a range thicker
/// than its thickness and this much has no single top.
pub const CARRIED_SLACK_UM: i128 = 1_000_000;

/// The sample of a joint wearing a kerb line, and the threshold between it and
/// one that does not.
pub const KERBED: i128 = 1_000_000;

pub const KERBED_THRESHOLD: i128 = 500_000;

/// One silhouette edge of a surface band: what the meshes answer half a metre
/// inside it, at the march points outside it, and in the middle of its rim.
#[derive(Debug)]
pub struct BandEdge {
    /// The surface band's road mesh.
    pub band: usize,
    /// Whether the edge's middle lies in the tile proper.
    pub owned: bool,
    pub place: Place,
    /// Height of the edge's middle.
    pub height: i64,
    pub inside: Probe,
    pub march: Vec<Probe>,
    pub kerb: Probe,
}

pub open spec fn edge_fits(roads: Seq<RoadMesh>, e: BandEdge) -> bool {
    &&& e.band < roads.len()
    &&& e.inside.covers(roads)
    &&& e.kerb.covers(roads)
    &&& forall|k: int| 0 <= k < e.march@.len() ==> (#[trigger] e.march@[k]).covers(roads)
}

/// A deck cut from the road it carries.
pub open spec fn is_solved_deck(r: RoadMesh) -> bool {
    r.deck && !r.fitted
}

/// Whether a deck continues a railway: by the band it names, else by its class.
pub open spec fn continues_rail(r: RoadMesh) -> bool {
    if r.band@ == "rail_surface"@ {
        true
    } else if r.band@ == "road_surface"@ {
        false
    } else {
        r.rail
    }
}

pub open spec fn is_ballast(r: RoadMesh) -> bool {
    starts_with(r.class@, "rail"@)
}

/// Whether the deck of mesh `k` takes over a band at height `h` here.
pub open spec fn takes_over(roads: Seq<RoadMesh>, p: Probe, k: int, ballast: bool, h: int, thickness: int) -> bool {
    &&& is_solved_deck(roads[k])
    &&& continues_rail(roads[k]) == ballast
    &&& p.ranges@[k] is Some
    &&& (p.ranges@[k]->0).1 - (p.ranges@[k]->0).0 <= thickness + CARRIED_SLACK_UM
    &&& (p.ranges@[k]->0).0 - CARRIED_SLACK_UM <= h <= (p.ranges@[k]->0).1 + CARRIED_SLACK_UM
}

/// The first deck among the first `n` meshes that takes the band over here.
pub open spec fn carrier(roads: Seq<RoadMesh>, p: Probe, ballast: bool, h: int, thickness: int, n: int) -> Option<int>
    decreases n,
{
    if n <= 0 {
        None
    } else {
        match carrier(roads, p, ballast, h, thickness, n - 1) {
            Some(k) => Some(k),
            None => if takes_over(roads, p, n - 1, ballast, h, thickness) {
                Some(n - 1)
            } else {
                None
            },
        }
    }
}

/// The highest at-grade asphalt among the first `n` meshes that could be a band
/// at height `h` continuing.
pub open spec fn continuing(roads: Seq<RoadMesh>, p: Probe, h: int, thickness: int, n: int) -> Option<i64>
    decreases n,
{
    if n <= 0 {
        None
    } else {
        let best = continuing(roads, p, h, thickness, n - 1);
        let r = roads[n - 1];
        match p.heights@[n - 1] {
            Some(z) if (r.pavement || r.casing) && abs(z - h) <= thickness + CARRIED_SLACK_UM && (best is None
                || z > best->0) => Some(z),
            _ => best,
        }
    }
}

/// Where a march found its deck: the deck, how far out, and the last drawn
/// surface before it.
pub struct Joint {
    pub deck: int,
    pub at: int,
    pub top: i64,
    pub last: int,
    pub surface: i64,
}

/// What a march from point `k` on finds, having last seen surface `last` out at
/// height `surface`.
pub open spec fn joint_from(
    roads: Seq<RoadMesh>,
    march: Seq<Probe>,
    ballast: bool,
    h: int,
    thickness: int,
    k: int,
    last: int,
    surface: i64,
) -> Option<Joint>
    decreases MARCH_STEPS - k,
{
    if k < 0 || k >= MARCH_STEPS || k >= march.len() || !march[k].owned {
        None
    } else {
        let n = roads.len() as int;
        match carrier(roads, march[k], ballast, h, thickness, n) {
            Some(d) => Some(
                Joint { deck: d, at: (k + 1) * STEP_UM, top: (march[k].ranges@[d]->0).1, last, surface },
            ),
            None => match continuing(roads, march[k], h, thickness, n) {
                Some(z) => joint_from(roads, march, ballast, h, thickness, k + 1, (k + 1) * STEP_UM, z),
                None => joint_from(roads, march, ballast, h, thickness, k + 1, last, surface),
            },
        }
    }
}

/// The joint an edge hands over at.
pub open spec fn joint(roads: Seq<RoadMesh>, e: BandEdge, thickness: int) -> Option<Joint> {
    joint_from(roads, e.march@, is_ballast(roads[e.band as int]), e.height as int, thickness, 0, 0, e.height)
}

/// Whether a kerb line is drawn across an edge.
pub open spec fn kerbed(roads: Seq<RoadMesh>, e: BandEdge) -> bool {
    exists|k: int| 0 <= k < roads.len() && (#[trigger] roads[k]).casing && e.kerb.heights@[k] is Some
}

/// Everything the check holds.
pub struct Held {
    pub bare: Scores,
    pub step: Scores,
    pub kerb: Scores,
    pub asphalt: u64,
    pub ballast: u64,
    pub overlapped: u64,
    pub decks: u64,
    pub named: u64,
}

pub open spec fn offence(past: bool, place: Place, zoom: u8, value: int, note: Note) -> Option<Offender> {
    if past {
        Some(Offender { place, zoom, value: value as i128, note })
    } else {
        None
    }
}

/// What one joint adds.
pub open spec fn joint_held(h: Held, roads: Seq<RoadMesh>, e: BandEdge, j: Joint, zoom: u8) -> Held {
    let ballast = is_ballast(roads[e.band as int]);
    let deck = roads[j.deck].class;
    let bare = j.at - j.last;
    let step = abs(j.top - j.surface);
    Held {
        asphalt: if ballast {
            h.asphalt
        } else {
            bumped(h.asphalt)
        },
        ballast: if ballast {
            bumped(h.ballast)
        } else {
            h.ballast
        },
        bare: scored(
            h.bare,
            bare,
            offence(bare > BARE_UM, e.place, zoom, bare, Note::HandoverBare { deck, ballast }),
        ),
        step: scored(
            h.step,
            step,
            offence(
                step > STEP_BREAK_UM,
                e.place,
                zoom,
                step,
                Note::HandoverStep { deck, ballast, above: j.top > j.surface, bare: bare as i64 },
            ),
        ),
        kerb: if kerbed(roads, e) {
            scored(
                h.kerb,
                KERBED as int,
                Some(Offender { place: e.place, zoom, value: KERBED, note: Note::HandoverKerb { deck, ballast } }),
            )
        } else {
            scored(h.kerb, 0, None)
        },
        ..h
    }
}

/// What one edge adds: nothing outside the tile proper or where the mesh is no
/// surface band, an overlap where a deck
/// stands over the band itself, a joint where the march reaches one.
pub open spec fn edge_held(h: Held, roads: Seq<RoadMesh>, e: BandEdge, thickness: int, zoom: u8) -> Held {
    let ballast = is_ballast(roads[e.band as int]);
    if !e.owned || !roads[e.band as int].pavement {
        h
    } else if carrier(roads, e.inside, ballast, e.height as int, thickness, roads.len() as int) is Some {
        Held { overlapped: bumped(h.overlapped), ..h }
    } else {
        match joint(roads, e, thickness) {
            Some(j) => joint_held(h, roads, e, j, zoom),
            None => h,
        }
    }
}

/// What the first `n` edges add.
pub open spec fn edges_held(h: Held, roads: Seq<RoadMesh>, edges: Seq<BandEdge>, thickness: int, zoom: u8, n: int) -> Held
    decreases n,
{
    if n <= 0 {
        h
    } else {
        edge_held(edges_held(h, roads, edges, thickness, zoom, n - 1), roads, edges[n - 1], thickness, zoom)
    }
}

/// What the first `n` meshes add to the deck counts.
pub open spec fn decks_counted(h: Held, roads: Seq<RoadMesh>, n: int) -> Held
    decreases n,
{
    if n <= 0 {
        h
    } else {
        let rest = decks_counted(h, roads, n - 1);
        if is_solved_deck(roads[n - 1]) {
            Held {
                decks: bumped(rest.decks),
                named: if roads[n - 1].band@.len() > 0 {
                    bumped(rest.named)
                } else {
                    rest.named
                },
                ..rest
            }
        } else {
            rest
        }
    }
}

pub open spec fn any_deck(roads: Seq<RoadMesh>) -> bool {
    exists|k: int| 0 <= k < roads.len() && is_solved_deck(#[trigger] roads[k])
}

/// Whether some road mesh is an at-grade band or the casing welded to one.
pub open spec fn any_surface(roads: Seq<RoadMesh>) -> bool {
    exists|k: int| 0 <= k < roads.len() && ((#[trigger] roads[k]).pavement || roads[k].casing)
}

fn draws_surface(roads: &[RoadMesh]) -> (yes: bool)
    ensures
        yes == any_surface(roads@),
{
    let mut k: usize = 0;
    while k < roads.len()
        invariant
            k <= roads@.len(),
            forall|i: int| 0 <= i < k ==> !((#[trigger] roads@[i]).pavement || roads@[i].casing),
        decreases roads@.len() - k,
    {
        if roads[k].pavement || roads[k].casing {
            assert(roads@[k as int].pavement || roads@[k as int].casing);
            return true;
        }
        k = k + 1;
    }
    false
}

/// What one tile adds: nothing where it draws no solved deck or no surface at
/// grade.
pub open spec fn tile_held(h: Held, roads: Seq<RoadMesh>, edges: Seq<BandEdge>, thickness: int, zoom: u8) -> Held {
    if any_deck(roads) && any_surface(roads) {
        edges_held(
            decks_counted(h, roads, roads.len() as int),
            roads,
            edges,
            thickness,
            zoom,
            edges.len() as int,
        )
    } else {
        h
    }
}

proof fn lemma_carrier(roads: Seq<RoadMesh>, p: Probe, ballast: bool, h: int, thickness: int, n: int)
    ensures
        match carrier(roads, p, ballast, h, thickness, n) {
            Some(k) => 0 <= k < n && takes_over(roads, p, k, ballast, h, thickness),
            None => forall|k: int| 0 <= k < n ==> !takes_over(roads, p, k, ballast, h, thickness),
        },
    decreases n,
{
    if n > 0 {
        lemma_carrier(roads, p, ballast, h, thickness, n - 1);
    }
}

/// Whether march point `i` is where joint `j` was found.
pub open spec fn found_at(
    roads: Seq<RoadMesh>,
    march: Seq<Probe>,
    ballast: bool,
    h: int,
    thickness: int,
    j: Joint,
    i: int,
) -> bool {
    &&& 0 <= i < march.len()
    &&& j.at == (i + 1) * STEP_UM
    &&& 0 <= j.deck < roads.len()
    &&& takes_over(roads, march[i], j.deck, ballast, h, thickness)
    &&& j.top == (march[i].ranges@[j.deck]->0).1
}

proof fn lemma_joint_from(
    roads: Seq<RoadMesh>,
    march: Seq<Probe>,
    ballast: bool,
    h: int,
    thickness: int,
    k: int,
    last: int,
    surface: i64,
)
    requires
        0 <= k,
        0 <= last <= k * STEP_UM,
    ensures
        match joint_from(roads, march, ballast, h, thickness, k, last, surface) {
            Some(j) => {
                &&& 0 <= j.last < j.at <= MARCH_STEPS * STEP_UM
                &&& exists|i: int|
                    {
                        &&& k <= i
                        &&& #[trigger] found_at(roads, march, ballast, h, thickness, j, i)
                        &&& i == k ==> j.last == last
                        &&& i > k && continuing(roads, march[i - 1], h, thickness, roads.len() as int) is Some
                            ==> j.last == i * STEP_UM
                    }
            },
            None => true,
        },
    decreases MARCH_STEPS - k,
{
    if k >= MARCH_STEPS || k >= march.len() || !march[k].owned {
    } else {
        let n = roads.len() as int;
        lemma_carrier(roads, march[k], ballast, h, thickness, n);
        match carrier(roads, march[k], ballast, h, thickness, n) {
            Some(d) => {
                let j = joint_from(roads, march, ballast, h, thickness, k, last, surface)->0;
                assert(found_at(roads, march, ballast, h, thickness, j, k));
            },
            None => match continuing(roads, march[k], h, thickness, n) {
                Some(z) => {
                    lemma_joint_from(roads, march, ballast, h, thickness, k + 1, (k + 1) * STEP_UM, z);
                },
                None => {
                    lemma_joint_from(roads, march, ballast, h, thickness, k + 1, last, surface);
                },
            },
        }
    }
}

/// A joint is where a deck of the band's own kind, at the band's own height,
/// takes over, and the surface it is measured from ends before it.
pub proof fn a_joint_is_a_deck_at_the_bands_height(roads: Seq<RoadMesh>, e: BandEdge, thickness: int)
    requires
        joint(roads, e, thickness) is Some,
    ensures
        ({
            let j = joint(roads, e, thickness)->0;
            &&& 0 <= j.last < j.at <= MARCH_STEPS * STEP_UM
            &&& exists|i: int|
                #[trigger] found_at(
                    roads,
                    e.march@,
                    is_ballast(roads[e.band as int]),
                    e.height as int,
                    thickness,
                    j,
                    i,
                )
        }),
{
    lemma_joint_from(
        roads,
        e.march@,
        is_ballast(roads[e.band as int]),
        e.height as int,
        thickness,
        0,
        0,
        e.height,
    );
}

/// A structure passing overhead is no joint: where no march point has a deck
/// that takes the band over, the edge adds nothing.
pub proof fn a_structure_overhead_is_no_joint(h: Held, roads: Seq<RoadMesh>, e: BandEdge, thickness: int, zoom: u8)
    requires
        forall|i: int, k: int|
            0 <= i < e.march@.len() && 0 <= k < roads.len() ==> !#[trigger] takes_over(
                roads,
                e.march@[i],
                k,
                is_ballast(roads[e.band as int]),
                e.height as int,
                thickness,
            ),
        carrier(
            roads,
            e.inside,
            is_ballast(roads[e.band as int]),
            e.height as int,
            thickness,
            roads.len() as int,
        ) is None,
    ensures
        edge_held(h, roads, e, thickness, zoom) == h,
{
    lemma_joint_from(
        roads,
        e.march@,
        is_ballast(roads[e.band as int]),
        e.height as int,
        thickness,
        0,
        0,
        e.height,
    );
}

/// Surface drawn right up to the deck is no gap: where the point before the
/// joint still shows the band, the bare ground measured is one march step.
pub proof fn surface_up_to_the_deck_is_no_gap(roads: Seq<RoadMesh>, e: BandEdge, thickness: int, i: int)
    requires
        joint(roads, e, thickness) is Some,
        joint(roads, e, thickness)->0.at == (i + 1) * STEP_UM,
        i == 0 || continuing(roads, e.march@[i - 1], e.height as int, thickness, roads.len() as int) is Some,
    ensures
        joint(roads, e, thickness)->0.at - joint(roads, e, thickness)->0.last == STEP_UM,
{
    lemma_joint_from(
        roads,
        e.march@,
        is_ballast(roads[e.band as int]),
        e.height as int,
        thickness,
        0,
        0,
        e.height,
    );
}

fn continues_railway(r: &RoadMesh) -> (yes: bool)
    ensures
        yes == continues_rail(*r),
{
    if is_name(&r.band, "rail_surface") {
        true
    } else if is_name(&r.band, "road_surface") {
        false
    } else {
        is_rail_class(r)
    }
}

/// Whether a drawn structure's class names a railway.
pub fn is_rail_class(r: &RoadMesh) -> (yes: bool)
    ensures
        yes == r.rail,
{
    r.rail
}

fn find_carrier(roads: &[RoadMesh], p: &Probe, ballast: bool, h: i64, thickness: i64) -> (out: Option<(usize, i64)>)
    requires
        p.covers(roads@),
    ensures
        match carrier(roads@, *p, ballast, h as int, thickness as int, roads@.len() as int) {
            Some(k) => out is Some && (out->0).0 == k && (out->0).1 == (p.ranges@[k]->0).1 && k < roads@.len(),
            None => out is None,
        },
{
    let mut out: Option<(usize, i64)> = None;
    let mut k: usize = 0;
    while k < roads.len()
        invariant
            k <= roads@.len(),
            p.covers(roads@),
            match carrier(roads@, *p, ballast, h as int, thickness as int, k as int) {
                Some(d) => out is Some && (out->0).0 == d && (out->0).1 == (p.ranges@[d]->0).1 && d < k,
                None => out is None,
            },
        decreases roads@.len() - k,
    {
        let r: &RoadMesh = &roads[k];
        if out.is_none() && r.deck && !r.fitted && continues_railway(r) == ballast {
            if let Some((lo, hi)) = p.ranges[k] {
                let deep: i128 = hi as i128 - lo as i128;
                if deep <= thickness as i128 + CARRIED_SLACK_UM && lo as i128 - CARRIED_SLACK_UM <= h as i128
                    && h as i128 <= hi as i128 + CARRIED_SLACK_UM {
                    out = Some((k, hi));
                }
            }
        }
        k = k + 1;
    }
    out
}

fn find_continuing(roads: &[RoadMesh], p: &Probe, h: i64, thickness: i64) -> (out: Option<i64>)
    requires
        p.covers(roads@),
    ensures
        out == continuing(roads@, *p, h as int, thickness as int, roads@.len() as int),
{
    let mut out: Option<i64> = None;
    let mut k: usize = 0;
    while k < roads.len()
        invariant
            k <= roads@.len(),
            p.covers(roads@),
            out == continuing(roads@, *p, h as int, thickness as int, k as int),
        decreases roads@.len() - k,
    {
        if let Some(z) = p.heights[k] {
            if (roads[k].pavement || roads[k].casing) && distance(z, h) as i128 <= thickness as i128 + CARRIED_SLACK_UM {
                let higher: bool = match out {
                    None => true,
                    Some(b) => z > b,
                };
                if higher {
                    out = Some(z);
                }
            }
        }
        k = k + 1;
    }
    out
}

/// A joint as the march measured it.
struct Found {
    deck: usize,
    at: i64,
    top: i64,
    last: i64,
    surface: i64,
}

impl Found {
    spec fn view(&self) -> Joint {
        Joint { deck: self.deck as int, at: self.at as int, top: self.top, last: self.last as int, surface: self.surface }
    }
}

fn find_joint(roads: &[RoadMesh], e: &BandEdge, ballast: bool, thickness: i64) -> (out: Option<Found>)
    requires
        edge_fits(roads@, *e),
        ballast == is_ballast(roads@[e.band as int]),
    ensures
        match joint(roads@, *e, thickness as int) {
            Some(j) => out is Some && out->0@ == j && out->0.deck < roads@.len() && 0 <= out->0.last < out->0.at,
            None => out is None,
        },
{
    let mut last: i64 = 0;
    let mut surface: i64 = e.height;
    let mut k: usize = 0;
    while k < MARCH_STEPS && k < e.march.len()
        invariant
            k <= MARCH_STEPS,
            k <= e.march@.len(),
            edge_fits(roads@, *e),
            0 <= last <= k * STEP_UM,
            joint(roads@, *e, thickness as int) == joint_from(
                roads@,
                e.march@,
                ballast,
                e.height as int,
                thickness as int,
                k as int,
                last as int,
                surface,
            ),
        decreases MARCH_STEPS - k,
    {
        let p: &Probe = &e.march[k];
        assert(e.march@[k as int].covers(roads@));
        if !p.owned {
            return None;
        }
        let at: i64 = (k as i64 + 1) * STEP_UM;
        if let Some((deck, top)) = find_carrier(roads, p, ballast, e.height, thickness) {
            return Some(Found { deck, at, top, last, surface });
        }
        if let Some(z) = find_continuing(roads, p, e.height, thickness) {
            last = at;
            surface = z;
        }
        k = k + 1;
    }
    None
}

fn draws_kerb(roads: &[RoadMesh], e: &BandEdge) -> (yes: bool)
    requires
        edge_fits(roads@, *e),
    ensures
        yes == kerbed(roads@, *e),
{
    let mut k: usize = 0;
    while k < roads.len()
        invariant
            k <= roads@.len(),
            edge_fits(roads@, *e),
            forall|i: int| 0 <= i < k ==> !((#[trigger] roads@[i]).casing && e.kerb.heights@[i] is Some),
        decreases roads@.len() - k,
    {
        if roads[k].casing && e.kerb.heights[k].is_some() {
            assert(roads@[k as int].casing);
            return true;
        }
        k = k + 1;
    }
    false
}

/// The handoff check.
#[derive(Debug)]
pub struct Handoff {
    pub bare: Tally,
    pub step: Tally,
    pub kerb: Tally,
    /// Edges that found their deck, by what the band is made of.
    pub asphalt: u64,
    pub ballast: u64,
    /// Band edges a deck already covers.
    pub overlapped: u64,
    /// Drawn decks, and how many name the band they continue.
    pub decks: u64,
    pub named: u64,
}

impl Handoff {
    pub open spec fn well_formed(&self) -> bool {
        self.bare.well_formed() && self.step.well_formed() && self.kerb.well_formed()
    }

    pub open spec fn view(&self) -> Held {
        Held {
            bare: self.bare@,
            step: self.step@,
            kerb: self.kerb@,
            asphalt: self.asphalt,
            ballast: self.ballast,
            overlapped: self.overlapped,
            decks: self.decks,
            named: self.named,
        }
    }

    pub fn new(opt: &Options) -> (out: Handoff)
        requires
            opt.worst_k < usize::MAX,
        ensures
            out.well_formed(),
            out@ == (Held {
                bare: fresh(opt.worst_k),
                step: fresh(opt.worst_k),
                kerb: fresh(opt.worst_k),
                asphalt: 0,
                ballast: 0,
                overlapped: 0,
                decks: 0,
                named: 0,
            }),
    {
        Handoff {
            bare: Tally::new(Sense::HigherIsWorse, opt.worst_k),
            step: Tally::new(Sense::HigherIsWorse, opt.worst_k),
            kerb: Tally::new(Sense::HigherIsWorse, opt.worst_k),
            asphalt: 0,
            ballast: 0,
            overlapped: 0,
            decks: 0,
            named: 0,
        }
    }

    fn count_decks(&mut self, roads: &[RoadMesh])
        requires
            old(self).well_formed(),
        ensures
            final(self).well_formed(),
            final(self)@ == decks_counted(old(self)@, roads@, roads@.len() as int),
    {
        let mut k: usize = 0;
        while k < roads.len()
            invariant
                k <= roads@.len(),
                self.well_formed(),
                self@ == decks_counted(old(self)@, roads@, k as int),
            decreases roads@.len() - k,
        {
            if roads[k].deck && !roads[k].fitted {
                self.decks = bump(self.decks);
                if roads[k].band.as_str().unicode_len() > 0 {
                    self.named = bump(self.named);
                }
            }
            k = k + 1;
        }
    }

    /// Scores one edge.
    fn visit_edge(&mut self, roads: &[RoadMesh], e: &BandEdge, thickness: i64, zoom: u8)
        requires
            old(self).well_formed(),
            edge_fits(roads@, *e),
        ensures
            final(self).well_formed(),
            final(self)@ == edge_held(old(self)@, roads@, *e, thickness as int, zoom),
    {
        if !e.owned || !roads[e.band].pavement {
            return;
        }
        let ballast: bool = has_prefix(&roads[e.band].class, "rail");
        if find_carrier(roads, &e.inside, ballast, e.height, thickness).is_some() {
            self.overlapped = bump(self.overlapped);
            return;
        }
        if let Some(j) = find_joint(roads, e, ballast, thickness) {
            if ballast {
                self.ballast = bump(self.ballast);
            } else {
                self.asphalt = bump(self.asphalt);
            }
            let deck: &String = &roads[j.deck].class;
            let bare: i64 = j.at - j.last;
            let step: i128 = distance(j.top, j.surface) as i128;
            let offender: Option<Offender> = if bare as i128 > BARE_UM {
                Some(
                    Offender {
                        place: e.place,
                        zoom,
                        value: bare as i128,
                        note: Note::HandoverBare { deck: deck.clone(), ballast },
                    },
                )
            } else {
                None
            };
            self.bare.record(bare as i128, offender);
            let offender: Option<Offender> = if step > STEP_BREAK_UM {
                Some(
                    Offender {
                        place: e.place,
                        zoom,
                        value: step,
                        note: Note::HandoverStep { deck: deck.clone(), ballast, above: j.top > j.surface, bare },
                    },
                )
            } else {
                None
            };
            self.step.record(step, offender);
            if draws_kerb(roads, e) {
                self.kerb.record(
                    KERBED,
                    Some(
                        Offender {
                            place: e.place,
                            zoom,
                            value: KERBED,
                            note: Note::HandoverKerb { deck: deck.clone(), ballast },
                        },
                    ),
                );
            } else {
                self.kerb.record(0, None);
            }
        }
    }

    /// Scores one tile. `thickness` is a deck's thickness.
    pub fn visit(&mut self, zoom: u8, roads: &[RoadMesh], edges: &[BandEdge], thickness: i64)
        requires
            old(self).well_formed(),
            forall|i: int| 0 <= i < edges@.len() ==> edge_fits(roads@, #[trigger] edges@[i]),
        ensures
            final(self).well_formed(),
            final(self)@ == tile_held(old(self)@, roads@, edges@, thickness as int, zoom),
    {
        let mut any: bool = false;
        let mut k: usize = 0;
        while k < roads.len()
            invariant
                k <= roads@.len(),
                any == exists|i: int| 0 <= i < k && is_solved_deck(#[trigger] roads@[i]),
            decreases roads@.len() - k,
        {
            if roads[k].deck && !roads[k].fitted {
                assert(is_solved_deck(roads@[k as int]));
                any = true;
            }
            k = k + 1;
        }
        if !any || !draws_surface(roads) {
            return;
        }
        self.count_decks(roads);
        let ghost start = self@;
        let mut i: usize = 0;
        while i < edges.len()
            invariant
                i <= edges@.len(),
                forall|j: int| 0 <= j < edges@.len() ==> edge_fits(roads@, #[trigger] edges@[j]),
                self.well_formed(),
                self@ == edges_held(start, roads@, edges@, thickness as int, zoom, i as int),
            decreases edges@.len() - i,
        {
            assert(edge_fits(roads@, edges@[i as int]));
            self.visit_edge(roads, &edges[i], thickness, zoom);
            i = i + 1;
        }
    }

    /// What the finished metrics say.
    pub open spec fn reported(&self, out: Seq<Metric>) -> bool {
        &&& out.len() == 3
        &&& out[0].reports(
            "seam.band_deck_bare"@,
            Invariant::I2,
            BARE_UM as int,
            self.asphalt == 0 && self.ballast == 0,
            self.bare@,
        )
        &&& out[1].reports(
            "seam.band_deck_step"@,
            Invariant::I2,
            STEP_BREAK_UM as int,
            self.asphalt == 0 && self.ballast == 0,
            self.step@,
        )
        &&& out[2].reports(
            "seam.handover_kerb"@,
            Invariant::I2,
            KERBED_THRESHOLD as int,
            self.asphalt == 0 && self.ballast == 0,
            self.kerb@,
        )
    }

    pub fn finish(self) -> (out: Vec<Metric>)
        ensures
            self.reported(out@),
    {
        let skipped: bool = self.asphalt == 0 && self.ballast == 0;
        let mut out: Vec<Metric> = Vec::new();
        out.push(Metric::close("seam.band_deck_bare", Invariant::I2, BARE_UM, skipped, self.bare));
        out.push(Metric::close("seam.band_deck_step", Invariant::I2, STEP_BREAK_UM, skipped, self.step));
        out.push(Metric::close("seam.handover_kerb", Invariant::I2, KERBED_THRESHOLD, skipped, self.kerb));
        out
    }
}

/// A deck takes a band over where it is solved and of the band's kind, is no
/// thicker there than a deck and a metre, and the band is within a metre of it.
pub proof fn a_deck_takes_over_a_band_at_its_height(roads: Seq<RoadMesh>, p: Probe, k: int, ballast: bool, h: int, thickness: int)
    ensures
        takes_over(roads, p, k, ballast, h, thickness) <==> {
            let rail = if roads[k].band@ == "rail_surface"@ {
                true
            } else {
                roads[k].band@ != "road_surface"@ && roads[k].rail
            };
            &&& roads[k].deck && !roads[k].fitted
            &&& rail == ballast
            &&& p.ranges@[k] matches Some(r) && r.1 - r.0 - thickness <= 1_000_000 && r.0 - 1_000_000 <= h <= r.1 + 1_000_000
        },
{
}

/// The deck that takes a band over is the first of the tile's meshes that does.
pub proof fn the_first_deck_takes_over(roads: Seq<RoadMesh>, p: Probe, ballast: bool, h: int, thickness: int, n: int, k: int)
    requires
        0 <= n,
        0 <= k,
        forall|j: int| 0 <= j < k && j < n ==> !#[trigger] takes_over(roads, p, j, ballast, h, thickness),
        k < n ==> takes_over(roads, p, k, ballast, h, thickness),
    ensures
        carrier(roads, p, ballast, h, thickness, n) == if k < n {
            Some(k)
        } else {
            None
        },
    decreases n,
{
    if n > 0 {
        the_first_deck_takes_over(roads, p, ballast, h, thickness, n - 1, k);
        if n - 1 < k {
            assert(!takes_over(roads, p, n - 1, ballast, h, thickness));
        }
    }
}

/// Whether a mesh could be a band at a height going on at a point: at-grade
/// pavement or its casing, within a deck's thickness and a metre of it.
pub open spec fn goes_on(roads: Seq<RoadMesh>, p: Probe, h: int, thickness: int, k: int) -> bool {
    &&& roads[k].pavement || roads[k].casing
    &&& p.heights@[k] matches Some(z) && -1_000_000 - thickness <= z - h <= thickness + 1_000_000
}

/// A band goes on as the highest mesh that could be it.
pub proof fn a_band_goes_on_as_the_highest(roads: Seq<RoadMesh>, p: Probe, h: int, thickness: int, n: int)
    requires
        0 <= n,
    ensures
        match continuing(roads, p, h, thickness, n) {
            Some(z) => {
                &&& exists|k: int| 0 <= k < n && #[trigger] goes_on(roads, p, h, thickness, k) && p.heights@[k] == Some(z)
                &&& forall|k: int| 0 <= k < n && #[trigger] goes_on(roads, p, h, thickness, k) ==> p.heights@[k]->0 <= z
            },
            None => forall|k: int| 0 <= k < n ==> !#[trigger] goes_on(roads, p, h, thickness, k),
        },
    decreases n,
{
    if n > 0 {
        a_band_goes_on_as_the_highest(roads, p, h, thickness, n - 1);
        let was = continuing(roads, p, h, thickness, n - 1);
        let now = continuing(roads, p, h, thickness, n);
        let g = goes_on(roads, p, h, thickness, n - 1);
        if was is Some && now == was {
            let k = choose|k: int|
                0 <= k < n - 1 && #[trigger] goes_on(roads, p, h, thickness, k) && p.heights@[k] == Some(was->0);
            assert(goes_on(roads, p, h, thickness, k));
        }
    }
}

/// A march finds its joint at the first point a deck takes the band over at, where
/// every point up to it is in the tile: so many tenths of a metre out, at the
/// deck's top. It finds none where the march leaves the tile first or is over
/// after a hundred and twenty points.
pub proof fn a_joint_is_found_at_the_first_deck(
    roads: Seq<RoadMesh>,
    march: Seq<Probe>,
    ballast: bool,
    h: int,
    thickness: int,
    k: int,
    last: int,
    surface: i64,
    m: int,
)
    requires
        0 <= k <= m,
        forall|j: int|
            k <= j < m && j < march.len() ==> (#[trigger] march[j]).owned && carrier(
                roads,
                march[j],
                ballast,
                h,
                thickness,
                roads.len() as int,
            ) is None,
    ensures
        ({
            let found = joint_from(roads, march, ballast, h, thickness, k, last, surface);
            let d = carrier(roads, march[m], ballast, h, thickness, roads.len() as int);
            &&& m < 120 && m < march.len() && march[m].owned && d is Some ==> {
                &&& found is Some
                &&& found->0.deck == d->0
                &&& found->0.at == 100_000 * (m + 1)
                &&& found->0.top == (march[m].ranges@[d->0]->0).1
            }
            &&& m >= 120 || m >= march.len() || !march[m].owned ==> found is None
        }),
    decreases m - k,
{
    if k < m && k < march.len() && k < 120 {
        assert(march[k].owned);
        match continuing(roads, march[k], h, thickness, roads.len() as int) {
            Some(z) => {
                a_joint_is_found_at_the_first_deck(roads, march, ballast, h, thickness, k + 1, (k + 1) * STEP_UM, z, m);
            },
            None => {
                a_joint_is_found_at_the_first_deck(roads, march, ballast, h, thickness, k + 1, last, surface, m);
            },
        }
    }
}

/// The surface a joint is measured from is the last the band went on as before it,
/// at the point it did; where it did not go on, the band's own edge.
pub proof fn a_joint_is_measured_from_the_last_surface(
    roads: Seq<RoadMesh>,
    march: Seq<Probe>,
    ballast: bool,
    h: int,
    thickness: int,
    k: int,
    last: int,
    surface: i64,
    m: int,
    l: int,
)
    requires
        0 <= k <= m < 120,
        m < march.len(),
        march[m].owned,
        carrier(roads, march[m], ballast, h, thickness, roads.len() as int) is Some,
        forall|j: int|
            k <= j < m ==> (#[trigger] march[j]).owned && carrier(
                roads,
                march[j],
                ballast,
                h,
                thickness,
                roads.len() as int,
            ) is None,
        k - 1 <= l < m,
        l >= k ==> continuing(roads, march[l], h, thickness, roads.len() as int) is Some,
        forall|j: int|
            l < j < m ==> continuing(roads, #[trigger] march[j], h, thickness, roads.len() as int) is None,
    ensures
        ({
            let found = joint_from(roads, march, ballast, h, thickness, k, last, surface);
            &&& found is Some
            &&& l < k ==> found->0.last == last && found->0.surface == surface
            &&& l >= k ==> found->0.last == 100_000 * (l + 1) && found->0.surface == continuing(
                roads,
                march[l],
                h,
                thickness,
                roads.len() as int,
            )->0
        }),
    decreases m - k,
{
    if k < m {
        assert(march[k].owned);
        match continuing(roads, march[k], h, thickness, roads.len() as int) {
            Some(z) => {
                if l < k {
                    assert(continuing(roads, march[k], h, thickness, roads.len() as int) is None);
                }
                a_joint_is_measured_from_the_last_surface(
                    roads,
                    march,
                    ballast,
                    h,
                    thickness,
                    k + 1,
                    (k + 1) * STEP_UM,
                    z,
                    m,
                    l,
                );
            },
            None => {
                let from = if l < k {
                    k
                } else {
                    l
                };
                a_joint_is_measured_from_the_last_surface(
                    roads,
                    march,
                    ballast,
                    h,
                    thickness,
                    k + 1,
                    last,
                    surface,
                    m,
                    from,
                );
            },
        }
    }
}

/// Whether a joint is measured at an edge: an owned edge of at-grade pavement that
/// no deck stands over, whose march reaches one.
pub open spec fn is_measured(roads: Seq<RoadMesh>, e: BandEdge, thickness: int) -> bool {
    &&& e.owned
    &&& roads[e.band as int].pavement
    &&& carrier(
        roads,
        e.inside,
        starts_with(roads[e.band as int].class@, "rail"@),
        e.height as int,
        thickness,
        roads.len() as int,
    ) is None
    &&& joint(roads, e, thickness) is Some
}

/// What is found at every edge a joint is measured at: how far the deck is past
/// the last surface, past the limit above a tenth and a half of a metre; how far
/// it steps, past the limit above five centimetres; and one where a kerb line is
/// drawn across it, which is past the limit.
pub open spec fn edges_found(
    roads: Seq<RoadMesh>,
    edges: Seq<BandEdge>,
    thickness: int,
    zoom: u8,
    bare: Seq<Option<Finding>>,
    step: Seq<Option<Finding>>,
    kerb: Seq<Option<Finding>>,
) -> bool {
    &&& bare.len() == edges.len()
    &&& step.len() == edges.len()
    &&& kerb.len() == edges.len()
    &&& forall|i: int|
        0 <= i < edges.len() ==> #[trigger] bare[i] == ({
            let e = edges[i];
            let j = joint(roads, e, thickness)->0;
            let ballast = starts_with(roads[e.band as int].class@, "rail"@);
            if is_measured(roads, e, thickness) {
                above(
                    j.at - j.last,
                    150_000,
                    Offender {
                        place: e.place,
                        zoom,
                        value: (j.at - j.last) as i128,
                        note: Note::HandoverBare { deck: roads[j.deck].class, ballast },
                    },
                )
            } else {
                None
            }
        })
    &&& forall|i: int|
        0 <= i < edges.len() ==> #[trigger] step[i] == ({
            let e = edges[i];
            let j = joint(roads, e, thickness)->0;
            let ballast = starts_with(roads[e.band as int].class@, "rail"@);
            let off = if j.top < j.surface {
                j.surface - j.top
            } else {
                j.top - j.surface
            };
            if is_measured(roads, e, thickness) {
                above(
                    off,
                    50_000,
                    Offender {
                        place: e.place,
                        zoom,
                        value: off as i128,
                        note: Note::HandoverStep {
                            deck: roads[j.deck].class,
                            ballast,
                            above: j.top > j.surface,
                            bare: (j.at - j.last) as i64,
                        },
                    },
                )
            } else {
                None
            }
        })
    &&& forall|i: int|
        0 <= i < edges.len() ==> #[trigger] kerb[i] == ({
            let e = edges[i];
            let j = joint(roads, e, thickness)->0;
            let ballast = starts_with(roads[e.band as int].class@, "rail"@);
            let line = exists|k: int| 0 <= k < roads.len() && (#[trigger] roads[k]).casing && e.kerb.heights@[k] is Some;
            if is_measured(roads, e, thickness) {
                above(
                    if line {
                        1_000_000
                    } else {
                        0
                    },
                    500_000,
                    Offender {
                        place: e.place,
                        zoom,
                        value: 1_000_000,
                        note: Note::HandoverKerb { deck: roads[j.deck].class, ballast },
                    },
                )
            } else {
                None
            }
        })
}

/// Every joint is measured: over bare ground, in height, and for a kerb line.
pub proof fn every_joint_is_measured(
    h: Held,
    roads: Seq<RoadMesh>,
    edges: Seq<BandEdge>,
    thickness: int,
    zoom: u8,
    bare: Seq<Option<Finding>>,
    step: Seq<Option<Finding>>,
    kerb: Seq<Option<Finding>>,
    n: int,
)
    requires
        0 <= n <= edges.len(),
        edges_found(roads, edges, thickness, zoom, bare, step, kerb),
    ensures
        edges_held(h, roads, edges, thickness, zoom, n).bare == gathered(h.bare, bare, n),
        edges_held(h, roads, edges, thickness, zoom, n).step == gathered(h.step, step, n),
        edges_held(h, roads, edges, thickness, zoom, n).kerb == gathered(h.kerb, kerb, n),
    decreases n,
{
    if n > 0 {
        every_joint_is_measured(h, roads, edges, thickness, zoom, bare, step, kerb, n - 1);
        let i = n - 1;
        let (a, b, c) = (bare[i], step[i], kerb[i]);
        assert(is_ballast(roads[edges[i].band as int]) == starts_with(roads[edges[i].band as int].class@, "rail"@));
        assert(kerbed(roads, edges[i]) == exists|k: int|
            0 <= k < roads.len() && (#[trigger] roads[k]).casing && edges[i].kerb.heights@[k] is Some);
    }
}

/// An edge is counted as asphalt or as ballast where it has a joint, and as
/// overlapped where a deck stands over the band itself.
pub proof fn every_edge_is_counted_as_what_it_is(h: Held, roads: Seq<RoadMesh>, e: BandEdge, thickness: int, zoom: u8)
    requires
        h.asphalt < u64::MAX && h.ballast < u64::MAX && h.overlapped < u64::MAX,
    ensures
        ({
            let k = edge_held(h, roads, e, thickness, zoom);
            let ballast = starts_with(roads[e.band as int].class@, "rail"@);
            let asked = e.owned && roads[e.band as int].pavement;
            let over = carrier(roads, e.inside, ballast, e.height as int, thickness, roads.len() as int) is Some;
            &&& k.overlapped == h.overlapped + if asked && over {
                1int
            } else {
                0
            }
            &&& k.asphalt == h.asphalt + if is_measured(roads, e, thickness) && !ballast {
                1int
            } else {
                0
            }
            &&& k.ballast == h.ballast + if is_measured(roads, e, thickness) && ballast {
                1int
            } else {
                0
            }
            &&& k.decks == h.decks && k.named == h.named
        }),
{
}

/// Every solved deck of a tile is counted, and those that name the band they
/// continue are counted as naming it.
pub proof fn every_solved_deck_is_counted(h: Held, roads: Seq<RoadMesh>, n: int, decks: Seq<int>, named: Seq<int>)
    requires
        0 <= n <= roads.len() == decks.len(),
        named.len() == roads.len(),
        h.decks + roads.len() <= u64::MAX,
        h.named + roads.len() <= u64::MAX,
        forall|k: int|
            0 <= k < roads.len() ==> #[trigger] decks[k] == if roads[k].deck && !roads[k].fitted {
                1int
            } else {
                0
            },
        forall|k: int|
            0 <= k < roads.len() ==> #[trigger] named[k] == if roads[k].deck && !roads[k].fitted && roads[k].band@.len() > 0 {
                1int
            } else {
                0
            },
    ensures
        decks_counted(h, roads, n).decks == h.decks + crate::arith::total(decks.take(n)),
        decks_counted(h, roads, n).named == h.named + crate::arith::total(named.take(n)),
        0 <= crate::arith::total(decks.take(n)) <= n,
        0 <= crate::arith::total(named.take(n)) <= n,
    decreases n,
{
    if n > 0 {
        every_solved_deck_is_counted(h, roads, n - 1, decks, named);
        assert(decks.take(n).drop_last() =~= decks.take(n - 1));
        assert(named.take(n).drop_last() =~= named.take(n - 1));
        assert(decks.take(n).last() == decks[n - 1]);
        assert(named.take(n).last() == named[n - 1]);
    }
}

} // verus!
