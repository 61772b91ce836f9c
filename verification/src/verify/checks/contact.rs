//! Nothing floats and nothing is buried by accident, measured where drawn
//! surfaces part company.
//!
//! - The kerb lip: how tall a wall the model implies at a carriageway's edge.
//! - The unwalled rim: how much of that wall is missing.
//! - The deck seat: how far a footbridge's lower end stands below the wall
//!   beside it.
//! - The carried deck: how far a footway's own deck sinks below the solved
//!   deck carrying it.
//! - The rail standoff: how far a railway stands off the ground beneath it.
use vstd::prelude::*;
use crate::arith::{abs, clamp, distance, max, min};
use crate::text::{has_prefix, starts_with};
use crate::verify::{fresh, scored, Invariant, Metric, Note, Offender, Place, Scores, Sense, Tally};
use crate::verify::checks::deck::{heading_fits, run_along, runs_along, Heading};
use crate::verify::checks::Options;
use crate::verify::scene::{apron_spanning, apron_spans, paved_at, paved_height, Probe, RoadMesh};

pub mod found;

verus! {

/// A kerb standing this far above the ground beside it is not a kerb.
pub const LIP_UM: i128 = 500_000;

/// How many two-metre steps past an abutment the ground is followed.
pub const SEAT_STEPS: usize = 10;

/// The climb over one step that makes ground a wall rather than a slope: 60 %
/// of two metres.
pub const SEAT_WALL_UM: i128 = 1_200_000;

/// How far an abutment may stand below the wall beside it.
pub const SEAT_UM: i128 = 2_000_000;

/// The shortest deck that has a direction to follow.
pub const MIN_DECK_UM: u64 = 1_000_000;

/// A deck carries a footway that runs along it for at least this many tenths
/// of the footway's length.
pub const CARRY_COVER_TENTHS: u64 = 7;

/// How closely the two decks must meet at one of the footway's ends.
pub const CARRY_JOIN_UM: i128 = 3_000_000;

/// How far a footway may sink below the deck carrying it.
pub const CARRY_UM: i128 = 1_000_000;

/// How far a railway may stand off the ground beneath it.
pub const RAIL_STANDOFF_UM: i128 = 2_000_000;

/// How close a structure surface must be to a rail stroke for the stroke to be
/// on it.
pub const RAIL_ON_DECK_UM: u64 = 1_000_000;

/// One end of a deck: its top, and the ground at it and at each step outward
/// along the deck's axis.
#[derive(Debug)]
pub struct DeckEnd {
    pub owned: bool,
    pub place: Place,
    pub top: i64,
    pub ground: Probe,
    pub march: Vec<Probe>,
}

/// Another deck beside this one: the way it runs, and its top at each sample of
/// this one's axis that found it.
#[derive(Debug)]
pub struct Alongside {
    pub road: u32,
    pub heading: Heading,
    pub tops: Vec<Option<i64>>,
}

/// A deck and its surroundings. `ends` is absent when the mesh has no two
/// ends; `axis` holds the deck's top at each sample of its axis.
#[derive(Debug)]
pub struct Deck {
    pub road: u32,
    pub ends: Option<(DeckEnd, DeckEnd)>,
    pub heading: Heading,
    pub length: u64,
    pub axis: Vec<i64>,
    pub beside: Vec<Alongside>,
}

/// One vertex of a drawn line.
#[derive(Debug)]
pub struct LineVertex {
    pub height: i64,
    pub at: Probe,
}

/// A drawn centreline.
#[derive(Debug)]
pub struct Line {
    pub class: String,
    pub level: i64,
    /// Whether the class names a gauge or a rail system.
    pub rail: bool,
    pub parts: Vec<Vec<LineVertex>>,
}

/// A silhouette edge of a road mesh: the height of its midpoint, and the point
/// a metre outside it, absent when the edge has no outward direction.
#[derive(Debug)]
pub struct KerbEdge {
    pub road: u32,
    pub owned: bool,
    pub place: Place,
    pub height: i64,
    pub outside: Option<Probe>,
}

/// A boundary edge of the terrain mesh: the height of its midpoint, and
/// whether it lies on the tile's own edge.
#[derive(Debug)]
pub struct RimEdge {
    pub height: i64,
    pub on_tile_edge: bool,
    pub at: Probe,
}

/// What a tile's meshes answer for this check.
#[derive(Debug)]
pub struct ContactScene {
    pub zoom: u8,
    pub has_terrain: bool,
    pub roads: Vec<RoadMesh>,
    pub decks: Vec<Deck>,
    pub lines: Vec<Line>,
    pub kerbs: Vec<KerbEdge>,
    pub rims: Vec<RimEdge>,
}

pub open spec fn end_fits(roads: Seq<RoadMesh>, e: DeckEnd) -> bool {
    e.ground.covers(roads) && forall|k: int| 0 <= k < e.march@.len() ==> (#[trigger] e.march@[k]).covers(roads)
}

pub open spec fn deck_fits(roads: Seq<RoadMesh>, d: Deck) -> bool {
    &&& d.road < roads.len()
    &&& heading_fits(d.heading)
    &&& d.ends is Some ==> end_fits(roads, (d.ends->0).0) && end_fits(roads, (d.ends->0).1)
    &&& forall|k: int|
        0 <= k < d.beside@.len() ==> (#[trigger] d.beside@[k]).road < roads.len() && heading_fits(d.beside@[k].heading)
            && d.beside@[k].tops@.len() == d.axis@.len()
}

pub open spec fn line_fits(roads: Seq<RoadMesh>, l: Line) -> bool {
    forall|p: int, v: int|
        0 <= p < l.parts@.len() && 0 <= v < l.parts@[p]@.len() ==> (#[trigger] l.parts@[p]@[v]).at.covers(roads)
}

pub open spec fn kerb_fits(roads: Seq<RoadMesh>, e: KerbEdge) -> bool {
    e.road < roads.len() && (e.outside is Some ==> (e.outside->0).covers(roads))
}

impl ContactScene {
    /// Every answer is given for every road mesh.
    pub open spec fn well_formed(&self) -> bool {
        &&& forall|i: int| 0 <= i < self.decks@.len() ==> deck_fits(self.roads@, #[trigger] self.decks@[i])
        &&& forall|i: int| 0 <= i < self.lines@.len() ==> line_fits(self.roads@, #[trigger] self.lines@[i])
        &&& forall|i: int| 0 <= i < self.kerbs@.len() ==> kerb_fits(self.roads@, #[trigger] self.kerbs@[i])
        &&& forall|i: int| 0 <= i < self.rims@.len() ==> (#[trigger] self.rims@[i]).at.covers(self.roads@)
    }
}

// ---------------------------------------------------------------------------
// What stands at a point.
// ---------------------------------------------------------------------------

/// The drawn ground at a point, through the hole cut under the asphalt: the
/// terrain, else the at-grade carriageway.
pub open spec fn drawn_ground(roads: Seq<RoadMesh>, p: Probe) -> Option<i64> {
    match p.terrain {
        Some(t) => Some(t),
        None => paved_height(roads, p, roads.len() as int),
    }
}

fn drawn_ground_at(roads: &[RoadMesh], p: &Probe) -> (h: Option<i64>)
    requires
        p.covers(roads@),
    ensures
        h == drawn_ground(roads@, *p),
{
    match p.terrain {
        Some(t) => Some(t),
        None => paved_at(roads, p),
    }
}

/// Whether a road mesh is an at-grade walkway or path band.
pub open spec fn is_walk_band(r: RoadMesh) -> bool {
    r.level == 0 && (starts_with(r.class@, "walk_"@) || starts_with(r.class@, "path_"@))
}

/// The first answer among the first `n` road meshes that is a walkway or path
/// band.
pub open spec fn walk_height(roads: Seq<RoadMesh>, p: Probe, n: int) -> Option<i64>
    decreases n,
{
    if n <= 0 {
        None
    } else {
        match walk_height(roads, p, n - 1) {
            Some(h) => Some(h),
            None => if is_walk_band(roads[n - 1]) {
                p.heights@[n - 1]
            } else {
                None
            },
        }
    }
}

/// What a metre outside a kerb stands on: the walkway band where one is laid,
/// else the drawn terrain.
pub open spec fn beside_ground(roads: Seq<RoadMesh>, p: Probe) -> Option<i64> {
    match walk_height(roads, p, roads.len() as int) {
        Some(h) => Some(h),
        None => p.terrain,
    }
}

fn beside_ground_at(roads: &[RoadMesh], p: &Probe) -> (h: Option<i64>)
    requires
        p.covers(roads@),
    ensures
        h == beside_ground(roads@, *p),
{
    let mut out: Option<i64> = None;
    let mut k: usize = 0;
    while k < roads.len()
        invariant
            k <= roads@.len(),
            p.covers(roads@),
            out == walk_height(roads@, *p, k as int),
        decreases roads@.len() - k,
    {
        let r: &RoadMesh = &roads[k];
        let walk: bool = r.level == 0 && (has_prefix(&r.class, "walk_") || has_prefix(&r.class, "path_"));
        if out.is_none() && walk {
            out = p.heights[k];
        }
        k = k + 1;
    }
    match out {
        Some(h) => Some(h),
        None => p.terrain,
    }
}

// ---------------------------------------------------------------------------
// Rail standoff.
// ---------------------------------------------------------------------------

/// Whether one of the first `n` road meshes is a deck carrying a stroke at
/// height `h`.
pub open spec fn on_deck(roads: Seq<RoadMesh>, p: Probe, h: int, n: int) -> bool {
    exists|k: int|
        0 <= k < n && (#[trigger] roads[k]).deck && p.heights@[k] is Some && abs(h - p.heights@[k]->0) < RAIL_ON_DECK_UM
}

/// What one vertex of a rail line adds: its standoff, where it is owned, has
/// drawn ground under it and rides no deck.
pub open spec fn rail_vertex_scored(s: Scores, roads: Seq<RoadMesh>, class: String, v: LineVertex, zoom: u8) -> Scores {
    if !v.at.owned || v.at.terrain is None || on_deck(roads, v.at, v.height as int, roads.len() as int) {
        s
    } else {
        let ground = v.at.terrain->0;
        let off = v.height - ground;
        scored(
            s,
            off,
            if off > RAIL_STANDOFF_UM {
                Some(
                    Offender {
                        place: v.at.place,
                        zoom,
                        value: off as i128,
                        note: Note::RailStandoff { class, height: v.height, ground },
                    },
                )
            } else {
                None
            },
        )
    }
}

pub open spec fn rail_part_scored(s: Scores, roads: Seq<RoadMesh>, class: String, part: Seq<LineVertex>, zoom: u8, n: int) -> Scores
    decreases n,
{
    if n <= 0 {
        s
    } else {
        rail_vertex_scored(rail_part_scored(s, roads, class, part, zoom, n - 1), roads, class, part[n - 1], zoom)
    }
}

pub open spec fn rail_line_scored(s: Scores, roads: Seq<RoadMesh>, l: Line, zoom: u8, n: int) -> Scores
    decreases n,
{
    if n <= 0 {
        s
    } else {
        rail_part_scored(
            rail_line_scored(s, roads, l, zoom, n - 1),
            roads,
            l.class,
            l.parts@[n - 1]@,
            zoom,
            l.parts@[n - 1]@.len() as int,
        )
    }
}

/// What the first `n` lines add: level-0 rail lines only.
pub open spec fn rail_scored(s: Scores, roads: Seq<RoadMesh>, lines: Seq<Line>, zoom: u8, n: int) -> Scores
    decreases n,
{
    if n <= 0 {
        s
    } else {
        let rest = rail_scored(s, roads, lines, zoom, n - 1);
        let l = lines[n - 1];
        if l.level == 0 && l.rail {
            rail_line_scored(rest, roads, l, zoom, l.parts@.len() as int)
        } else {
            rest
        }
    }
}

// ---------------------------------------------------------------------------
// Carried decks.
// ---------------------------------------------------------------------------

/// How far another deck stands above this one at each of the first `n` axis
/// samples that found it.
pub open spec fn rises(axis: Seq<i64>, tops: Seq<Option<i64>>, n: int) -> Seq<int>
    decreases n,
{
    if n <= 0 {
        Seq::empty()
    } else {
        let rest = rises(axis, tops, n - 1);
        match tops[n - 1] {
            Some(t) => rest.push(t - axis[n - 1]),
            None => rest,
        }
    }
}

/// The largest of the first `n` rises, never below zero.
pub open spec fn sink_of(r: Seq<int>, n: int) -> int
    decreases n,
{
    if n <= 0 {
        0
    } else {
        max(sink_of(r, n - 1), r[n - 1])
    }
}

/// How well two decks meet: the closer of the first and last disagreements.
pub open spec fn join_of(r: Seq<int>) -> int {
    min(abs(r[0]), abs(r[r.len() - 1]))
}

/// Whether a deck carries this one: solved, parallel, alongside for enough of
/// it, and meeting it at one end.
pub open spec fn carries(roads: Seq<RoadMesh>, d: Deck, c: Alongside) -> bool {
    let r = rises(d.axis@, c.tops@, d.axis@.len() as int);
    &&& roads[c.road as int].deck
    &&& !roads[c.road as int].fitted
    &&& run_along(d.heading, c.heading)
    &&& 10 * r.len() >= CARRY_COVER_TENTHS * d.axis@.len()
    &&& r.len() > 0
    &&& join_of(r) <= CARRY_JOIN_UM
}

/// How many axis samples found a deck.
pub open spec fn hits(d: Deck, c: Alongside) -> int {
    rises(d.axis@, c.tops@, d.axis@.len() as int).len() as int
}

/// The carrying deck among the first `n` beside this one: the one alongside
/// the most of it, the earliest on a tie.
pub open spec fn carrier_of(roads: Seq<RoadMesh>, d: Deck, n: int) -> Option<int>
    decreases n,
{
    if n <= 0 {
        None
    } else {
        let best = carrier_of(roads, d, n - 1);
        let c = d.beside@[n - 1];
        if carries(roads, d, c) && (best is None || hits(d, c) > hits(d, d.beside@[best->0])) {
            Some(n - 1)
        } else {
            best
        }
    }
}

/// The deck carrying a fitted one, when the deck is long enough to ask.
pub open spec fn carrier(roads: Seq<RoadMesh>, d: Deck) -> Option<int> {
    if d.length < MIN_DECK_UM || d.axis@.len() < 2 {
        None
    } else {
        carrier_of(roads, d, d.beside@.len() as int)
    }
}

/// What one fitted deck adds: how far it sinks below its carrier, when both
/// its ends are owned and it has one.
pub open spec fn carried_deck_scored(s: Scores, roads: Seq<RoadMesh>, d: Deck, zoom: u8) -> Scores {
    if !roads[d.road as int].fitted || d.ends is None || !(d.ends->0).0.owned || !(d.ends->0).1.owned {
        s
    } else {
        match carrier(roads, d) {
            None => s,
            Some(k) => {
                let c = d.beside@[k];
                let r = rises(d.axis@, c.tops@, d.axis@.len() as int);
                let sink = sink_of(r, r.len() as int);
                scored(
                    s,
                    sink,
                    if sink > CARRY_UM {
                        Some(
                            Offender {
                                place: (d.ends->0).0.place,
                                zoom,
                                value: sink as i128,
                                note: Note::CarriedDeck {
                                    class: roads[d.road as int].class,
                                    carrier: roads[c.road as int].class,
                                    hits: r.len() as u64,
                                    samples: d.axis@.len() as u64,
                                    join: join_of(r) as u128,
                                },
                            },
                        )
                    } else {
                        None
                    },
                )
            },
        }
    }
}

pub open spec fn carried_scored(s: Scores, roads: Seq<RoadMesh>, decks: Seq<Deck>, zoom: u8, n: int) -> Scores
    decreases n,
{
    if n <= 0 {
        s
    } else {
        carried_deck_scored(carried_scored(s, roads, decks, zoom, n - 1), roads, decks[n - 1], zoom)
    }
}

// ---------------------------------------------------------------------------
// Deck seats.
// ---------------------------------------------------------------------------

/// The lower end of a deck, the first on a tie.
pub open spec fn lower_end(ends: (DeckEnd, DeckEnd)) -> DeckEnd {
    if ends.0.top <= ends.1.top {
        ends.0
    } else {
        ends.1
    }
}

pub open spec fn upper_end(ends: (DeckEnd, DeckEnd)) -> DeckEnd {
    if ends.0.top <= ends.1.top {
        ends.1
    } else {
        ends.0
    }
}

/// How high the ground has climbed above `low` once the march from step `k`
/// on has ended: it goes on only while the ground is drawn and climbs like a
/// wall.
pub open spec fn wall_climb(roads: Seq<RoadMesh>, march: Seq<Probe>, low: int, prev: int, climbed: int, k: int) -> int
    decreases SEAT_STEPS - k,
{
    if k < 0 || k >= SEAT_STEPS || k >= march.len() {
        climbed
    } else {
        match drawn_ground(roads, march[k]) {
            None => climbed,
            Some(h) => if h - prev < SEAT_WALL_UM {
                climbed
            } else {
                wall_climb(roads, march, low, h as int, max(climbed, h - low), k + 1)
            },
        }
    }
}

/// The ground at the lower abutment: what is drawn there, else the deck's own
/// top.
pub open spec fn abutment_ground(roads: Seq<RoadMesh>, low: DeckEnd) -> int {
    match drawn_ground(roads, low.ground) {
        Some(h) => h as int,
        None => low.top as int,
    }
}

/// How far a deck's lower end stands below the wall beside it, bounded by its
/// own far end.
pub open spec fn seat_depth(roads: Seq<RoadMesh>, ends: (DeckEnd, DeckEnd)) -> int {
    let low = lower_end(ends);
    let high = upper_end(ends);
    let start = abutment_ground(roads, low);
    clamp(
        wall_climb(roads, low.march@, low.top as int, start, max(start - low.top, 0), 0),
        0,
        high.top - low.top,
    )
}

/// What one fitted deck adds: its seat depth, when both its ends are owned and
/// it is long enough to have a direction.
pub open spec fn seat_deck_scored(s: Scores, roads: Seq<RoadMesh>, d: Deck, zoom: u8) -> Scores {
    if !roads[d.road as int].fitted || d.ends is None || !(d.ends->0).0.owned || !(d.ends->0).1.owned || d.length
        < MIN_DECK_UM {
        s
    } else {
        let depth = seat_depth(roads, d.ends->0);
        let low = lower_end(d.ends->0);
        let high = upper_end(d.ends->0);
        scored(
            s,
            depth,
            if depth > SEAT_UM {
                Some(
                    Offender {
                        place: low.place,
                        zoom,
                        value: depth as i128,
                        note: Note::DeckSeat { class: roads[d.road as int].class, low: low.top, high: high.top },
                    },
                )
            } else {
                None
            },
        )
    }
}

pub open spec fn seats_scored(s: Scores, roads: Seq<RoadMesh>, decks: Seq<Deck>, zoom: u8, n: int) -> Scores
    decreases n,
{
    if n <= 0 {
        s
    } else {
        seat_deck_scored(seats_scored(s, roads, decks, zoom, n - 1), roads, decks[n - 1], zoom)
    }
}

// ---------------------------------------------------------------------------
// The kerb.
// ---------------------------------------------------------------------------

/// What one silhouette edge adds: its height over what stands a metre outside
/// it, for owned edges of at-grade pavement.
pub open spec fn lip_edge_scored(s: Scores, roads: Seq<RoadMesh>, e: KerbEdge, zoom: u8) -> Scores {
    if !roads[e.road as int].pavement || !e.owned || e.outside is None || beside_ground(roads, e.outside->0) is None {
        s
    } else {
        let ground = beside_ground(roads, e.outside->0)->0;
        let lip = e.height - ground;
        scored(
            s,
            lip,
            if lip > LIP_UM {
                Some(
                    Offender {
                        place: e.place,
                        zoom,
                        value: lip as i128,
                        note: Note::KerbLip { kerb: e.height, ground },
                    },
                )
            } else {
                None
            },
        )
    }
}

pub open spec fn lips_scored(s: Scores, roads: Seq<RoadMesh>, kerbs: Seq<KerbEdge>, zoom: u8, n: int) -> Scores
    decreases n,
{
    if n <= 0 {
        s
    } else {
        lip_edge_scored(lips_scored(s, roads, kerbs, zoom, n - 1), roads, kerbs[n - 1], zoom)
    }
}

/// Whether a step between the asphalt and the rim is closed: small enough to
/// be a kerb, or spanned by an apron.
pub open spec fn walled(roads: Seq<RoadMesh>, p: Probe, road: int, rim: int) -> bool {
    abs(road - rim) <= LIP_UM || apron_spanning(roads, p, min(road, rim), max(road, rim), roads.len() as int)
}

/// What one terrain boundary edge adds: the step between the asphalt over it
/// and the rim, zero where it is closed.
pub open spec fn rim_edge_scored(s: Scores, roads: Seq<RoadMesh>, e: RimEdge, zoom: u8) -> Scores {
    let road = paved_height(roads, e.at, roads.len() as int);
    if !e.at.owned || e.on_tile_edge || road is None {
        s
    } else {
        let gap = abs(road->0 - e.height);
        if walled(roads, e.at, road->0 as int, e.height as int) {
            scored(s, 0, None)
        } else {
            scored(
                s,
                gap,
                Some(
                    Offender {
                        place: e.at.place,
                        zoom,
                        value: gap as i128,
                        note: Note::KerbUnwalled { road: road->0, rim: e.height },
                    },
                ),
            )
        }
    }
}

pub open spec fn rims_scored(s: Scores, roads: Seq<RoadMesh>, rims: Seq<RimEdge>, zoom: u8, n: int) -> Scores
    decreases n,
{
    if n <= 0 {
        s
    } else {
        rim_edge_scored(rims_scored(s, roads, rims, zoom, n - 1), roads, rims[n - 1], zoom)
    }
}

/// The contact check.
#[derive(Debug)]
pub struct Contact {
    pub lip: Tally,
    pub unwalled: Tally,
    pub seat: Tally,
    pub carried: Tally,
    pub rail: Tally,
}

/// The carrying deck found, with what its offender reports.
struct Carrier {
    road: u32,
    hits: usize,
    join: u128,
    sink: i128,
}

/// Measures one deck against this one: how many axis samples found it, how
/// well the two meet and how far this one sinks below it.
fn measure_beside(axis: &Vec<i64>, tops: &Vec<Option<i64>>) -> (out: (usize, u128, i128))
    requires
        tops@.len() == axis@.len(),
    ensures
        ({
            let r = rises(axis@, tops@, axis@.len() as int);
            &&& out.0 == r.len()
            &&& r.len() > 0 ==> out.1 == join_of(r)
            &&& out.2 == sink_of(r, r.len() as int)
        }),
{
    let mut found: usize = 0;
    let mut first: u128 = 0;
    let mut last: u128 = 0;
    let mut sink: i128 = 0;
    let mut k: usize = 0;
    while k < axis.len()
        invariant
            k <= axis@.len(),
            tops@.len() == axis@.len(),
            found <= k,
            ({
                let r = rises(axis@, tops@, k as int);
                &&& found == r.len()
                &&& r.len() > 0 ==> first == abs(r[0]) && last == abs(r[r.len() - 1])
                &&& sink == sink_of(r, r.len() as int)
                &&& 0 <= sink <= u64::MAX
            }),
        decreases axis@.len() - k,
    {
        let ghost before = rises(axis@, tops@, k as int);
        if let Some(t) = tops[k] {
            let rise: i128 = t as i128 - axis[k] as i128;
            let size: u128 = distance(t, axis[k]) as u128;
            proof {
                let after = rises(axis@, tops@, k + 1);
                assert(after == before.push(rise as int));
                lemma_sink_prefix(before, rise as int, before.len() as int);
            }
            if found == 0 {
                first = size;
            }
            last = size;
            if rise > sink {
                sink = rise;
            }
            found = found + 1;
        }
        k = k + 1;
    }
    let join: u128 = if first < last { first } else { last };
    (found, join, sink)
}

proof fn lemma_sink_prefix(r: Seq<int>, x: int, n: int)
    requires
        0 <= n <= r.len(),
    ensures
        sink_of(r.push(x), n) == sink_of(r, n),
    decreases n,
{
    if n > 0 {
        lemma_sink_prefix(r, x, n - 1);
    }
}

/// The deck carrying a fitted one.
fn carried_below(roads: &[RoadMesh], d: &Deck) -> (out: Option<Carrier>)
    requires
        deck_fits(roads@, *d),
    ensures
        match carrier(roads@, *d) {
            None => out is None,
            Some(k) => {
                let r = rises(d.axis@, d.beside@[k].tops@, d.axis@.len() as int);
                &&& 0 <= k < d.beside@.len()
                &&& out matches Some(c)
                &&& c.road == d.beside@[k].road
                &&& c.hits == r.len()
                &&& c.join == join_of(r)
                &&& c.sink == sink_of(r, r.len() as int)
            },
        },
{
    if d.length < MIN_DECK_UM || d.axis.len() < 2 {
        return None;
    }
    let mut best: Option<Carrier> = None;
    let mut k: usize = 0;
    while k < d.beside.len()
        invariant
            k <= d.beside@.len(),
            deck_fits(roads@, *d),
            match carrier_of(roads@, *d, k as int) {
                None => best is None,
                Some(j) => {
                    let r = rises(d.axis@, d.beside@[j].tops@, d.axis@.len() as int);
                    &&& 0 <= j < k
                    &&& best matches Some(c)
                    &&& c.road == d.beside@[j].road
                    &&& c.hits == r.len()
                    &&& c.join == join_of(r)
                    &&& c.sink == sink_of(r, r.len() as int)
                },
            },
        decreases d.beside@.len() - k,
    {
        let c: &Alongside = &d.beside[k];
        assert(d.beside@[k as int].road < roads@.len());
        let other: &RoadMesh = &roads[c.road as usize];
        let (found, join, sink): (usize, u128, i128) = measure_beside(&d.axis, &c.tops);
        let along: bool = runs_along(d.heading, c.heading);
        if other.deck && !other.fitted && along && 10 * (found as u128) >= CARRY_COVER_TENTHS as u128 * (
        d.axis.len() as u128) && found > 0 && join <= CARRY_JOIN_UM as u128 {
            let better: bool = match &best {
                None => true,
                Some(b) => found > b.hits,
            };
            if better {
                best = Some(Carrier { road: c.road, hits: found, join, sink });
            }
        }
        k = k + 1;
    }
    best
}

/// Whether a deck carries the stroke at a vertex.
fn rides_deck(roads: &[RoadMesh], p: &Probe, h: i64) -> (rides: bool)
    requires
        p.covers(roads@),
    ensures
        rides == on_deck(roads@, *p, h as int, roads@.len() as int),
{
    let mut k: usize = 0;
    while k < roads.len()
        invariant
            k <= roads@.len(),
            p.covers(roads@),
            !on_deck(roads@, *p, h as int, k as int),
        decreases roads@.len() - k,
    {
        if roads[k].deck {
            if let Some(z) = p.heights[k] {
                if distance(h, z) < RAIL_ON_DECK_UM {
                    assert(roads@[k as int].deck);
                    return true;
                }
            }
        }
        k = k + 1;
    }
    false
}

/// How far a deck's lower end stands below the wall beside it.
fn seat_depth_of(roads: &[RoadMesh], low: &DeckEnd, high: &DeckEnd) -> (depth: i128)
    requires
        end_fits(roads@, *low),
        low.top <= high.top,
    ensures
        depth == clamp(
            wall_climb(
                roads@,
                low.march@,
                low.top as int,
                abutment_ground(roads@, *low),
                max(abutment_ground(roads@, *low) - low.top, 0),
                0,
            ),
            0,
            high.top - low.top,
        ),
{
    let floor: i128 = low.top as i128;
    let mut prev: i128 = match drawn_ground_at(roads, &low.ground) {
        Some(h) => h as i128,
        None => floor,
    };
    let mut climbed: i128 = if prev - floor > 0 { prev - floor } else { 0 };
    let ghost want = wall_climb(roads@, low.march@, floor as int, prev as int, climbed as int, 0);
    let mut k: usize = 0;
    let mut going: bool = true;
    while going && k < SEAT_STEPS && k < low.march.len()
        invariant
            k <= SEAT_STEPS,
            k <= low.march@.len(),
            end_fits(roads@, *low),
            floor == low.top,
            i64::MIN <= prev <= i64::MAX,
            0 <= climbed <= u64::MAX,
            going ==> want == wall_climb(roads@, low.march@, floor as int, prev as int, climbed as int, k as int),
            !going ==> want == climbed,
        decreases SEAT_STEPS - k, if going { 1int } else { 0 },
    {
        assert(low.march@[k as int].covers(roads@));
        match drawn_ground_at(roads, &low.march[k]) {
            None => {
                going = false;
            },
            Some(h) => {
                let here: i128 = h as i128;
                if here - prev < SEAT_WALL_UM {
                    going = false;
                } else {
                    if here - floor > climbed {
                        climbed = here - floor;
                    }
                    prev = here;
                    k = k + 1;
                }
            },
        }
    }
    let bound: i128 = high.top as i128 - floor;
    if climbed > bound {
        bound
    } else {
        climbed
    }
}

impl Contact {
    pub open spec fn well_formed(&self) -> bool {
        &&& self.lip.well_formed()
        &&& self.unwalled.well_formed()
        &&& self.seat.well_formed()
        &&& self.carried.well_formed()
        &&& self.rail.well_formed()
    }

    pub fn new(opt: &Options) -> (out: Contact)
        requires
            opt.worst_k < usize::MAX,
        ensures
            out.well_formed(),
            out.lip@ == fresh(opt.worst_k),
            out.unwalled@ == fresh(opt.worst_k),
            out.seat@ == fresh(opt.worst_k),
            out.carried@ == fresh(opt.worst_k),
            out.rail@ == fresh(opt.worst_k),
    {
        Contact {
            lip: Tally::new(Sense::HigherIsWorse, opt.worst_k),
            unwalled: Tally::new(Sense::HigherIsWorse, opt.worst_k),
            seat: Tally::new(Sense::HigherIsWorse, opt.worst_k),
            carried: Tally::new(Sense::HigherIsWorse, opt.worst_k),
            rail: Tally::new(Sense::HigherIsWorse, opt.worst_k),
        }
    }

    /// How far a drawn railway stands off the drawn ground beneath it.
    pub fn visit_rail(&mut self, tile: &ContactScene)
        requires
            old(self).well_formed(),
            tile.well_formed(),
        ensures
            final(self).well_formed(),
            final(self).rail@ == rail_scored(old(self).rail@, tile.roads@, tile.lines@, tile.zoom, tile.lines@.len() as int),
            final(self).lip == old(self).lip,
            final(self).unwalled == old(self).unwalled,
            final(self).seat == old(self).seat,
            final(self).carried == old(self).carried,
    {
        let ghost start = self.rail@;
        let roads: &Vec<RoadMesh> = &tile.roads;
        let mut i: usize = 0;
        while i < tile.lines.len()
            invariant
                i <= tile.lines@.len(),
                tile.well_formed(),
                roads@ == tile.roads@,
                self.well_formed(),
                self.rail@ == rail_scored(start, tile.roads@, tile.lines@, tile.zoom, i as int),
                self.lip == old(self).lip,
                self.unwalled == old(self).unwalled,
                self.seat == old(self).seat,
                self.carried == old(self).carried,
            decreases tile.lines@.len() - i,
        {
            let l: &Line = &tile.lines[i];
            assert(line_fits(tile.roads@, tile.lines@[i as int]));
            if l.level == 0 && l.rail {
                let ghost on_lines = self.rail@;
                let mut p: usize = 0;
                while p < l.parts.len()
                    invariant
                        p <= l.parts@.len(),
                        line_fits(tile.roads@, *l),
                        roads@ == tile.roads@,
                        self.well_formed(),
                        self.rail@ == rail_line_scored(on_lines, tile.roads@, *l, tile.zoom, p as int),
                        self.lip == old(self).lip,
                        self.unwalled == old(self).unwalled,
                        self.seat == old(self).seat,
                        self.carried == old(self).carried,
                    decreases l.parts@.len() - p,
                {
                    let part: &Vec<LineVertex> = &l.parts[p];
                    let ghost on_parts = self.rail@;
                    let mut v: usize = 0;
                    while v < part.len()
                        invariant
                            v <= part@.len(),
                            p < l.parts@.len(),
                            part@ == l.parts@[p as int]@,
                            line_fits(tile.roads@, *l),
                            roads@ == tile.roads@,
                            self.well_formed(),
                            self.rail@ == rail_part_scored(on_parts, tile.roads@, l.class, part@, tile.zoom, v as int),
                            self.lip == old(self).lip,
                            self.unwalled == old(self).unwalled,
                            self.seat == old(self).seat,
                            self.carried == old(self).carried,
                        decreases part@.len() - v,
                    {
                        let vertex: &LineVertex = &part[v];
                        assert(l.parts@[p as int]@[v as int].at.covers(tile.roads@));
                        if vertex.at.owned {
                            if let Some(ground) = vertex.at.terrain {
                                if !rides_deck(roads, &vertex.at, vertex.height) {
                                    let off: i128 = vertex.height as i128 - ground as i128;
                                    let offender: Option<Offender> = if off > RAIL_STANDOFF_UM {
                                        Some(
                                            Offender {
                                                place: vertex.at.place,
                                                zoom: tile.zoom,
                                                value: off,
                                                note: Note::RailStandoff {
                                                    class: l.class.clone(),
                                                    height: vertex.height,
                                                    ground,
                                                },
                                            },
                                        )
                                    } else {
                                        None
                                    };
                                    self.rail.record(off, offender);
                                }
                            }
                        }
                        v = v + 1;
                    }
                    p = p + 1;
                }
            }
            i = i + 1;
        }
    }

    /// How far a footway's own deck sinks below the solved deck carrying it.
    pub fn visit_carried(&mut self, tile: &ContactScene)
        requires
            old(self).well_formed(),
            tile.well_formed(),
        ensures
            final(self).well_formed(),
            final(self).carried@ == carried_scored(
                old(self).carried@,
                tile.roads@,
                tile.decks@,
                tile.zoom,
                tile.decks@.len() as int,
            ),
            final(self).lip == old(self).lip,
            final(self).unwalled == old(self).unwalled,
            final(self).seat == old(self).seat,
            final(self).rail == old(self).rail,
    {
        let ghost start = self.carried@;
        let roads: &Vec<RoadMesh> = &tile.roads;
        let mut i: usize = 0;
        while i < tile.decks.len()
            invariant
                i <= tile.decks@.len(),
                tile.well_formed(),
                roads@ == tile.roads@,
                self.well_formed(),
                self.carried@ == carried_scored(start, tile.roads@, tile.decks@, tile.zoom, i as int),
                self.lip == old(self).lip,
                self.unwalled == old(self).unwalled,
                self.seat == old(self).seat,
                self.rail == old(self).rail,
            decreases tile.decks@.len() - i,
        {
            let d: &Deck = &tile.decks[i];
            assert(deck_fits(tile.roads@, tile.decks@[i as int]));
            if roads[d.road as usize].fitted {
                if let Some(ends) = &d.ends {
                    if ends.0.owned && ends.1.owned {
                        if let Some(c) = carried_below(roads, d) {
                            let offender: Option<Offender> = if c.sink > CARRY_UM {
                                Some(
                                    Offender {
                                        place: ends.0.place,
                                        zoom: tile.zoom,
                                        value: c.sink,
                                        note: Note::CarriedDeck {
                                            class: roads[d.road as usize].class.clone(),
                                            carrier: roads[c.road as usize].class.clone(),
                                            hits: c.hits as u64,
                                            samples: d.axis.len() as u64,
                                            join: c.join,
                                        },
                                    },
                                )
                            } else {
                                None
                            };
                            self.carried.record(c.sink, offender);
                        }
                    }
                }
            }
            i = i + 1;
        }
    }

    /// How far a fitted deck's lower end stands below the wall beside it.
    pub fn visit_seats(&mut self, tile: &ContactScene)
        requires
            old(self).well_formed(),
            tile.well_formed(),
        ensures
            final(self).well_formed(),
            final(self).seat@ == seats_scored(old(self).seat@, tile.roads@, tile.decks@, tile.zoom, tile.decks@.len() as int),
            final(self).lip == old(self).lip,
            final(self).unwalled == old(self).unwalled,
            final(self).carried == old(self).carried,
            final(self).rail == old(self).rail,
    {
        let ghost start = self.seat@;
        let roads: &Vec<RoadMesh> = &tile.roads;
        let mut i: usize = 0;
        while i < tile.decks.len()
            invariant
                i <= tile.decks@.len(),
                tile.well_formed(),
                roads@ == tile.roads@,
                self.well_formed(),
                self.seat@ == seats_scored(start, tile.roads@, tile.decks@, tile.zoom, i as int),
                self.lip == old(self).lip,
                self.unwalled == old(self).unwalled,
                self.carried == old(self).carried,
                self.rail == old(self).rail,
            decreases tile.decks@.len() - i,
        {
            let d: &Deck = &tile.decks[i];
            assert(deck_fits(tile.roads@, tile.decks@[i as int]));
            if roads[d.road as usize].fitted && d.length >= MIN_DECK_UM {
                if let Some(ends) = &d.ends {
                    if ends.0.owned && ends.1.owned {
                        let (low, high): (&DeckEnd, &DeckEnd) = if ends.0.top <= ends.1.top {
                            (&ends.0, &ends.1)
                        } else {
                            (&ends.1, &ends.0)
                        };
                        let depth: i128 = seat_depth_of(roads, low, high);
                        let offender: Option<Offender> = if depth > SEAT_UM {
                            Some(
                                Offender {
                                    place: low.place,
                                    zoom: tile.zoom,
                                    value: depth,
                                    note: Note::DeckSeat {
                                        class: roads[d.road as usize].class.clone(),
                                        low: low.top,
                                        high: high.top,
                                    },
                                },
                            )
                        } else {
                            None
                        };
                        self.seat.record(depth, offender);
                    }
                }
            }
            i = i + 1;
        }
    }

    /// The drop from every kerb to what stands a metre outside it.
    fn visit_lips(&mut self, tile: &ContactScene)
        requires
            old(self).well_formed(),
            tile.well_formed(),
        ensures
            final(self).well_formed(),
            final(self).lip@ == lips_scored(old(self).lip@, tile.roads@, tile.kerbs@, tile.zoom, tile.kerbs@.len() as int),
            final(self).unwalled == old(self).unwalled,
            final(self).seat == old(self).seat,
            final(self).carried == old(self).carried,
            final(self).rail == old(self).rail,
    {
        let ghost start = self.lip@;
        let roads: &Vec<RoadMesh> = &tile.roads;
        let mut i: usize = 0;
        while i < tile.kerbs.len()
            invariant
                i <= tile.kerbs@.len(),
                tile.well_formed(),
                roads@ == tile.roads@,
                self.well_formed(),
                self.lip@ == lips_scored(start, tile.roads@, tile.kerbs@, tile.zoom, i as int),
                self.unwalled == old(self).unwalled,
                self.seat == old(self).seat,
                self.carried == old(self).carried,
                self.rail == old(self).rail,
            decreases tile.kerbs@.len() - i,
        {
            let e: &KerbEdge = &tile.kerbs[i];
            assert(kerb_fits(tile.roads@, tile.kerbs@[i as int]));
            if roads[e.road as usize].pavement && e.owned {
                if let Some(outside) = &e.outside {
                    if let Some(ground) = beside_ground_at(roads, outside) {
                        let lip: i128 = e.height as i128 - ground as i128;
                        let offender: Option<Offender> = if lip > LIP_UM {
                            Some(
                                Offender {
                                    place: e.place,
                                    zoom: tile.zoom,
                                    value: lip,
                                    note: Note::KerbLip { kerb: e.height, ground },
                                },
                            )
                        } else {
                            None
                        };
                        self.lip.record(lip, offender);
                    }
                }
            }
            i = i + 1;
        }
    }

    /// The steps at the terrain's own hole rim that nothing closes.
    fn visit_rims(&mut self, tile: &ContactScene)
        requires
            old(self).well_formed(),
            tile.well_formed(),
        ensures
            final(self).well_formed(),
            final(self).unwalled@ == rims_scored(
                old(self).unwalled@,
                tile.roads@,
                tile.rims@,
                tile.zoom,
                tile.rims@.len() as int,
            ),
            final(self).lip == old(self).lip,
            final(self).seat == old(self).seat,
            final(self).carried == old(self).carried,
            final(self).rail == old(self).rail,
    {
        let ghost start = self.unwalled@;
        let roads: &Vec<RoadMesh> = &tile.roads;
        let mut i: usize = 0;
        while i < tile.rims.len()
            invariant
                i <= tile.rims@.len(),
                tile.well_formed(),
                roads@ == tile.roads@,
                self.well_formed(),
                self.unwalled@ == rims_scored(start, tile.roads@, tile.rims@, tile.zoom, i as int),
                self.lip == old(self).lip,
                self.seat == old(self).seat,
                self.carried == old(self).carried,
                self.rail == old(self).rail,
            decreases tile.rims@.len() - i,
        {
            let e: &RimEdge = &tile.rims[i];
            assert(tile.rims@[i as int].at.covers(tile.roads@));
            if e.at.owned && !e.on_tile_edge {
                if let Some(road) = paved_at(roads, &e.at) {
                    let gap: i128 = distance(road, e.height) as i128;
                    let (lo, hi): (i64, i64) = if road < e.height { (road, e.height) } else { (e.height, road) };
                    if gap <= LIP_UM || apron_spans(roads, &e.at, lo, hi) {
                        self.unwalled.record(0, None);
                    } else {
                        self.unwalled.record(
                            gap,
                            Some(
                                Offender {
                                    place: e.at.place,
                                    zoom: tile.zoom,
                                    value: gap,
                                    note: Note::KerbUnwalled { road, rim: e.height },
                                },
                            ),
                        );
                    }
                }
            }
            i = i + 1;
        }
    }

    /// Scores one tile. Decks are compared with each other on any tile; the
    /// rest needs drawn ground.
    pub fn visit(&mut self, tile: &ContactScene)
        requires
            old(self).well_formed(),
            tile.well_formed(),
        ensures
            final(self).well_formed(),
            final(self).carried@ == carried_scored(
                old(self).carried@,
                tile.roads@,
                tile.decks@,
                tile.zoom,
                tile.decks@.len() as int,
            ),
            tile.has_terrain ==> {
                &&& final(self).seat@ == seats_scored(
                    old(self).seat@,
                    tile.roads@,
                    tile.decks@,
                    tile.zoom,
                    tile.decks@.len() as int,
                )
                &&& final(self).rail@ == rail_scored(
                    old(self).rail@,
                    tile.roads@,
                    tile.lines@,
                    tile.zoom,
                    tile.lines@.len() as int,
                )
                &&& final(self).lip@ == lips_scored(
                    old(self).lip@,
                    tile.roads@,
                    tile.kerbs@,
                    tile.zoom,
                    tile.kerbs@.len() as int,
                )
                &&& final(self).unwalled@ == rims_scored(
                    old(self).unwalled@,
                    tile.roads@,
                    tile.rims@,
                    tile.zoom,
                    tile.rims@.len() as int,
                )
            },
            !tile.has_terrain ==> {
                &&& final(self).seat == old(self).seat
                &&& final(self).rail == old(self).rail
                &&& final(self).lip == old(self).lip
                &&& final(self).unwalled == old(self).unwalled
            },
    {
        self.visit_carried(tile);
        if !tile.has_terrain {
            return;
        }
        self.visit_seats(tile);
        self.visit_rail(tile);
        self.visit_lips(tile);
        self.visit_rims(tile);
    }

    /// What the finished metrics say.
    pub open spec fn reported(&self, out: Seq<Metric>) -> bool {
        &&& out.len() == 5
        &&& out[0].reports(
            "contact.kerb_unwalled"@,
            Invariant::I4,
            LIP_UM as int,
            self.unwalled@.samples.len() == 0,
            self.unwalled@,
        )
        &&& out[1].reports("contact.kerb_lip"@, Invariant::I4, LIP_UM as int, self.lip@.samples.len() == 0, self.lip@)
        &&& out[2].reports("contact.deck_seat"@, Invariant::I4, SEAT_UM as int, self.seat@.samples.len() == 0, self.seat@)
        &&& out[3].reports(
            "contact.deck_carried"@,
            Invariant::I4,
            CARRY_UM as int,
            self.carried@.samples.len() == 0,
            self.carried@,
        )
        &&& out[4].reports(
            "contact.rail_standoff"@,
            Invariant::I4,
            RAIL_STANDOFF_UM as int,
            self.rail@.samples.len() == 0,
            self.rail@,
        )
    }

    pub fn finish(self) -> (out: Vec<Metric>)
        ensures
            self.reported(out@),
    {
        let mut out: Vec<Metric> = Vec::new();
        let skipped: bool = self.unwalled.dist.is_empty();
        out.push(Metric::close("contact.kerb_unwalled", Invariant::I4, LIP_UM, skipped, self.unwalled));
        let skipped: bool = self.lip.dist.is_empty();
        out.push(Metric::close("contact.kerb_lip", Invariant::I4, LIP_UM, skipped, self.lip));
        let skipped: bool = self.seat.dist.is_empty();
        out.push(Metric::close("contact.deck_seat", Invariant::I4, SEAT_UM, skipped, self.seat));
        let skipped: bool = self.carried.dist.is_empty();
        out.push(Metric::close("contact.deck_carried", Invariant::I4, CARRY_UM, skipped, self.carried));
        let skipped: bool = self.rail.dist.is_empty();
        out.push(Metric::close("contact.rail_standoff", Invariant::I4, RAIL_STANDOFF_UM, skipped, self.rail));
        out
    }
}

} // verus!
