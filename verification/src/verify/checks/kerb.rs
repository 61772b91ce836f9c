//! The kerb line as one object: where the pavement beside a street stops short
//! of the pavement it should meet, and where its outer edge saws.
//!
//! The kerb is walked as chains of one-metre stations, and each station is
//! served when a drawn pedestrian surface stands beside it. A gap is a bare
//! run bounded by served runs on both ends and no longer than a corner a
//! pavement is expected to wrap. Every station of a bounded run is a sample:
//! the length of the gap it lies in, or zero.
use vstd::prelude::*;
use crate::arith::{abs, distance, max};
use crate::text::is_name;
use crate::verify::{fresh, scored, Invariant, Metric, Note, Offender, Place, Scores, Sense, Tally};
use crate::verify::checks::Options;
use crate::verify::scene::RoadMesh;

pub mod found;

verus! {

/// Station spacing along the kerb.
pub const STEP_UM: i128 = 1_000_000;

/// The longest bare run between two pavements that is still a corner, in
/// stations.
pub const GAP_MAX_STATIONS: usize = 25;

/// Past this a bare stretch is a gap rather than rounding at a band's end.
pub const GAP_UM: i128 = 2_000_000;

/// Per-station change ignored before the wander is summed.
pub const WIDTH_DEADBAND_UM: i128 = 20_000;

/// How far the pavement's edge may wander over the window.
pub const WIDTH_JOG_UM: i128 = 250_000;

/// The window the wander is read over, in stations.
pub const JOG_WINDOW: usize = 10;

/// The coarsest zoom that meshes pedestrian bands.
pub const WALK_SURFACE_MIN_ZOOM: u8 = 16;

/// What a kerb station is.
#[derive(Clone, Copy, Debug, PartialEq, Eq, Structural)]
pub enum State {
    /// Kerb with a pedestrian surface beside it.
    Served,
    /// Kerb with nothing beside it.
    Bare,
    /// Outside the tile proper, on its edge, pinched shut by a building, or
    /// not a kerb at all.
    Unknown,
}

/// One station along a silhouette chain.
#[derive(Clone, Copy, Debug, PartialEq, Eq, Structural)]
pub struct Station {
    pub state: State,
    /// Pavement width outward of the kerb, where it was measured.
    pub width: Option<i64>,
    pub place: Place,
}

pub open spec fn pedestrian_surface(r: RoadMesh) -> bool {
    &&& r.level == 0
    &&& (r.class@ == "walk_surface"@ || r.class@ == "walk_rim"@ || r.class@ == "path_surface"@ || r.class@
        == "path_rim"@)
}

/// Whether a mesh is an at-grade pedestrian surface or its rim.
pub fn is_pedestrian_surface(r: &RoadMesh) -> (yes: bool)
    ensures
        yes == pedestrian_surface(*r),
{
    r.level == 0 && (is_name(&r.class, "walk_surface") || is_name(&r.class, "walk_rim") || is_name(
        &r.class,
        "path_surface",
    ) || is_name(&r.class, "path_rim"))
}

pub open spec fn road_rim(r: RoadMesh) -> bool {
    r.level == 0 && r.class@ == "road_rim"@
}

/// Whether a mesh is an at-grade road rim.
pub fn is_road_rim(r: &RoadMesh) -> (yes: bool)
    ensures
        yes == road_rim(*r),
{
    r.level == 0 && is_name(&r.class, "road_rim")
}

pub open spec fn road_surface(r: RoadMesh) -> bool {
    r.level == 0 && r.class@ == "road_surface"@
}

/// Whether a mesh is the at-grade road surface.
pub fn is_road_surface(r: &RoadMesh) -> (yes: bool)
    ensures
        yes == road_surface(*r),
{
    r.level == 0 && is_name(&r.class, "road_surface")
}

/// What the tile answers at one station: which road meshes stand near the
/// kerb, which stand near the probe outward of it, whether a building stands
/// in the way, and the pavement width measured there.
#[derive(Debug)]
pub struct StationReading {
    pub owned: bool,
    pub on_tile_edge: bool,
    pub near_kerb: Vec<bool>,
    pub near_probe: Vec<bool>,
    pub built: bool,
    pub width: Option<i64>,
    pub place: Place,
}

impl StationReading {
    pub open spec fn covers(&self, roads: Seq<RoadMesh>) -> bool {
        self.near_kerb@.len() == roads.len() && self.near_probe@.len() == roads.len()
    }
}

/// Whether a road rim stands beside the station.
pub open spec fn rimmed(roads: Seq<RoadMesh>, r: StationReading) -> bool {
    exists|k: int| 0 <= k < roads.len() && road_rim(#[trigger] roads[k]) && r.near_kerb@[k]
}

/// Whether a pedestrian surface stands where the pavement is looked for.
pub open spec fn paved_beside(roads: Seq<RoadMesh>, r: StationReading) -> bool {
    exists|k: int| 0 <= k < roads.len() && pedestrian_surface(#[trigger] roads[k]) && r.near_probe@[k]
}

pub open spec fn state_of(roads: Seq<RoadMesh>, r: StationReading) -> State {
    if !r.owned || r.on_tile_edge || !rimmed(roads, r) || r.built {
        State::Unknown
    } else if paved_beside(roads, r) {
        State::Served
    } else {
        State::Bare
    }
}

/// The station a reading makes: a width counts only where the station is
/// served.
pub open spec fn station_of(roads: Seq<RoadMesh>, r: StationReading) -> Station {
    let state = state_of(roads, r);
    Station {
        state,
        width: if state == State::Served {
            r.width
        } else {
            None
        },
        place: r.place,
    }
}

/// Reads one station.
pub fn station(roads: &[RoadMesh], r: &StationReading) -> (out: Station)
    requires
        r.covers(roads@),
    ensures
        out == station_of(roads@, *r),
{
    let mut kerb: bool = false;
    let mut served: bool = false;
    let mut k: usize = 0;
    while k < roads.len()
        invariant
            k <= roads@.len(),
            r.covers(roads@),
            kerb == exists|i: int| 0 <= i < k && road_rim(#[trigger] roads@[i]) && r.near_kerb@[i],
            served == exists|i: int| 0 <= i < k && pedestrian_surface(#[trigger] roads@[i]) && r.near_probe@[i],
        decreases roads@.len() - k,
    {
        if r.near_kerb[k] && is_road_rim(&roads[k]) {
            assert(road_rim(roads@[k as int]) && r.near_kerb@[k as int]);
            kerb = true;
        }
        if r.near_probe[k] && is_pedestrian_surface(&roads[k]) {
            assert(pedestrian_surface(roads@[k as int]) && r.near_probe@[k as int]);
            served = true;
        }
        k = k + 1;
    }
    let state: State = if !r.owned || r.on_tile_edge || !kerb || r.built {
        State::Unknown
    } else if served {
        State::Served
    } else {
        State::Bare
    };
    let width: Option<i64> = if state == State::Served { r.width } else { None };
    Station { state, width, place: r.place }
}

// ---------------------------------------------------------------------------
// The wander of the pavement's edge.
// ---------------------------------------------------------------------------

/// Width at a station that measured one.
pub open spec fn width_at(st: Seq<Station>, i: int) -> int {
    st[i].width->0 as int
}

/// Total variation of the width from station `i` to station `j`, each change
/// taken past the deadband.
pub open spec fn variation(st: Seq<Station>, i: int, j: int) -> int
    decreases j - i,
{
    if j <= i {
        0
    } else {
        variation(st, i, j - 1) + max(abs(width_at(st, j) - width_at(st, j - 1)) - WIDTH_DEADBAND_UM, 0)
    }
}

/// How far the edge wanders from `i` to `j`: its total variation less its net
/// change.
pub open spec fn wander(st: Seq<Station>, i: int, j: int) -> int {
    max(variation(st, i, j) - abs(width_at(st, j) - width_at(st, i)), 0)
}

/// Where the window of station `i` ends in a run that ends at `to`.
pub open spec fn window_end(i: int, to: int) -> int {
    if i + JOG_WINDOW < to - 1 {
        i + JOG_WINDOW
    } else {
        to - 1
    }
}

/// The end of the run of measured stations that starts at `k`.
pub open spec fn run_end(st: Seq<Station>, k: int) -> int
    decreases st.len() - k,
{
    if k >= st.len() || st[k].width is None {
        k
    } else {
        run_end(st, k + 1)
    }
}

/// What the stations from `from` up to `i` of a run ending at `to` add: the
/// wander over the window ahead of each, as much of it as the run has.
pub open spec fn run_scored(s: Scores, st: Seq<Station>, zoom: u8, from: int, i: int, to: int) -> Scores
    decreases i - from,
{
    if i <= from {
        s
    } else {
        let k = i - 1;
        let j = window_end(k, to);
        let w = wander(st, k, j);
        scored(
            run_scored(s, st, zoom, from, i - 1, to),
            w,
            if w > WIDTH_JOG_UM {
                Some(
                    Offender {
                        place: st[k].place,
                        zoom,
                        value: w as i128,
                        note: Note::WidthWander {
                            stations: (j - k) as u64,
                            here: st[k].width->0,
                            there: st[j].width->0,
                        },
                    },
                )
            } else {
                None
            },
        )
    }
}

/// What every run of measured stations from `k` on adds. A run under three
/// stations is out of the population.
pub open spec fn wander_scored(s: Scores, st: Seq<Station>, zoom: u8, k: int) -> Scores
    decreases st.len() + 1 - k,
{
    if k < 0 || k >= st.len() {
        s
    } else {
        let to = run_end(st, k);
        if to < k || to > st.len() {
            s
        } else {
            wander_scored(
                if to - k < 3 {
                    s
                } else {
                    run_scored(s, st, zoom, k, to, to)
                },
                st,
                zoom,
                to + 1,
            )
        }
    }
}

proof fn lemma_run_end(st: Seq<Station>, k: int)
    requires
        0 <= k <= st.len(),
    ensures
        k <= run_end(st, k) <= st.len(),
        forall|i: int| k <= i < run_end(st, k) ==> (#[trigger] st[i]).width is Some,
    decreases st.len() - k,
{
    if k < st.len() && st[k].width is Some {
        lemma_run_end(st, k + 1);
    }
}

/// How many stations from `k` on stand in a run of three measured stations or
/// more.
pub open spec fn measured_stations(st: Seq<Station>, k: int) -> int
    decreases st.len() + 1 - k,
{
    if k < 0 || k >= st.len() {
        0
    } else {
        let to = run_end(st, k);
        if to < k || to > st.len() {
            0
        } else {
            measured_stations(st, to + 1) + if to - k < 3 {
                0
            } else {
                to - k
            }
        }
    }
}

/// Every measured station outside a run too short to wander is one sample,
/// zeros among them: the rate is a share of the drawn kerb.
pub proof fn every_measured_station_is_one_sample(s: Scores, st: Seq<Station>, zoom: u8, k: int)
    requires
        0 <= k,
    ensures
        wander_scored(s, st, zoom, k).samples.len() == s.samples.len() + measured_stations(st, k),
    decreases st.len() + 1 - k,
{
    if k < st.len() {
        let to = run_end(st, k);
        lemma_run_end(st, k);
        lemma_run_scored(s, st, zoom, k, to, to);
        every_measured_station_is_one_sample(
            if to - k < 3 {
                s
            } else {
                run_scored(s, st, zoom, k, to, to)
            },
            st,
            zoom,
            to + 1,
        );
    }
}

proof fn lemma_run_scored(s: Scores, st: Seq<Station>, zoom: u8, from: int, i: int, to: int)
    requires
        from <= i,
    ensures
        run_scored(s, st, zoom, from, i, to).samples.len() == s.samples.len() + (i - from),
    decreases i - from,
{
    if from < i {
        lemma_run_scored(s, st, zoom, from, i - 1, to);
    }
}

/// A steady taper never wanders: widths that only grow, or only shrink, over a
/// window score zero however steep they are.
pub proof fn a_monotone_edge_does_not_wander(st: Seq<Station>, i: int, j: int)
    requires
        0 <= i <= j < st.len(),
        (forall|k: int| i <= k < j ==> #[trigger] width_at(st, k) <= width_at(st, k + 1)) || (forall|k: int|
            i <= k < j ==> #[trigger] width_at(st, k) >= width_at(st, k + 1)),
    ensures
        wander(st, i, j) == 0,
{
    if forall|k: int| i <= k < j ==> #[trigger] width_at(st, k) <= width_at(st, k + 1) {
        lemma_rising_variation(st, i, j);
    } else {
        lemma_falling_variation(st, i, j);
    }
}

proof fn lemma_rising_variation(st: Seq<Station>, i: int, j: int)
    requires
        0 <= i <= j < st.len(),
        forall|k: int| i <= k < j ==> #[trigger] width_at(st, k) <= width_at(st, k + 1),
    ensures
        variation(st, i, j) <= width_at(st, j) - width_at(st, i),
    decreases j - i,
{
    if i < j {
        lemma_rising_variation(st, i, j - 1);
        assert(width_at(st, j - 1) <= width_at(st, j - 1 + 1));
    }
}

proof fn lemma_falling_variation(st: Seq<Station>, i: int, j: int)
    requires
        0 <= i <= j < st.len(),
        forall|k: int| i <= k < j ==> #[trigger] width_at(st, k) >= width_at(st, k + 1),
    ensures
        variation(st, i, j) <= width_at(st, i) - width_at(st, j),
    decreases j - i,
{
    if i < j {
        lemma_falling_variation(st, i, j - 1);
        assert(width_at(st, j - 1) >= width_at(st, j - 1 + 1));
    }
}

// ---------------------------------------------------------------------------
// Gaps between pavements.
// ---------------------------------------------------------------------------

/// The stations of a closed chain rotated to begin at `start`.
pub open spec fn rotated(st: Seq<Station>, start: int) -> Seq<Station> {
    st.skip(start) + st.take(start)
}

/// The first served station at or after `k`.
pub open spec fn first_served(st: Seq<Station>, k: int) -> Option<int>
    decreases st.len() - k,
{
    if k < 0 || k >= st.len() {
        None
    } else if st[k].state == State::Served {
        Some(k)
    } else {
        first_served(st, k + 1)
    }
}

/// The end of the run of one state that station `k` lies in, `k` its start.
pub open spec fn state_end(t: Seq<Station>, k: int, state: State) -> int
    decreases t.len() - k,
{
    if k >= t.len() || t[k].state != state {
        k
    } else {
        state_end(t, k + 1, state)
    }
}

/// The state before a run that starts at `k`; round the seam when closed.
pub open spec fn state_before(t: Seq<Station>, closed: bool, k: int) -> Option<State> {
    if k > 0 {
        Some(t[k - 1].state)
    } else if closed {
        Some(t[t.len() - 1].state)
    } else {
        None
    }
}

/// The state after a run that ends at `e`; round the seam when closed.
pub open spec fn state_after(t: Seq<Station>, closed: bool, e: int) -> Option<State> {
    if e < t.len() {
        Some(t[e].state)
    } else if closed {
        Some(t[0].state)
    } else {
        None
    }
}

/// Whether a run lies between two pavements.
pub open spec fn bounded(t: Seq<Station>, closed: bool, k: int, e: int) -> bool {
    state_before(t, closed, k) == Some(State::Served) && state_after(t, closed, e) == Some(State::Served)
}

/// What each station of a bounded bare run of `n` stations scores: the run's
/// length, or zero for a run too long to be a corner.
pub open spec fn gap_value(n: int) -> int {
    if n <= GAP_MAX_STATIONS {
        n * STEP_UM
    } else {
        0
    }
}

/// The same sample `n` times, with no offender.
pub open spec fn repeated(s: Scores, sample: int, n: int) -> Scores
    decreases n,
{
    if n <= 0 {
        s
    } else {
        scored(repeated(s, sample, n - 1), sample, None)
    }
}

/// What one run adds: zeros for served stations, the gap for a bare run
/// between two pavements, nothing for stations that answer no question.
pub open spec fn one_run_scored(s: Scores, t: Seq<Station>, closed: bool, zoom: u8, k: int, e: int) -> Scores {
    match t[k].state {
        State::Unknown => s,
        State::Served => repeated(s, 0, e - k),
        State::Bare => if !bounded(t, closed, k, e) {
            s
        } else {
            let v = gap_value(e - k);
            let all = repeated(s, v, e - k);
            if v > GAP_UM {
                Scores {
                    worst: crate::verify::offered(
                        all.sense,
                        all.keep,
                        all.worst,
                        Offender {
                            place: t[(k + e) / 2].place,
                            zoom,
                            value: v as i128,
                            note: Note::KerbGap { stations: (e - k) as u64 },
                        },
                    ),
                    ..all
                }
            } else {
                all
            }
        },
    }
}

/// What every run from station `k` on adds.
pub open spec fn gaps_scored(s: Scores, t: Seq<Station>, closed: bool, zoom: u8, k: int) -> Scores
    decreases t.len() - k,
{
    if k < 0 || k >= t.len() {
        s
    } else {
        let e = state_end(t, k, t[k].state);
        if e <= k || e > t.len() {
            s
        } else {
            gaps_scored(one_run_scored(s, t, closed, zoom, k, e), t, closed, zoom, e)
        }
    }
}

/// What a chain adds to the gap metric. A closed chain is read from its first
/// served station, so a bare run over its seam is one run; one with no
/// pavement at all has nothing to be short of.
pub open spec fn chain_gaps_scored(s: Scores, st: Seq<Station>, closed: bool, zoom: u8) -> Scores {
    if !closed {
        gaps_scored(s, st, false, zoom, 0)
    } else {
        match first_served(st, 0) {
            None => s,
            Some(start) => gaps_scored(s, rotated(st, start), true, zoom, 0),
        }
    }
}

proof fn lemma_state_end(t: Seq<Station>, k: int, state: State)
    requires
        0 <= k <= t.len(),
    ensures
        k <= state_end(t, k, state) <= t.len(),
        k < t.len() && t[k].state == state ==> state_end(t, k, state) > k,
        forall|i: int| k <= i < state_end(t, k, state) ==> (#[trigger] t[i]).state == state,
    decreases t.len() - k,
{
    if k < t.len() && t[k].state == state {
        lemma_state_end(t, k + 1, state);
    }
}

/// Whether a run is scored: served, or bare between two pavements.
pub open spec fn run_scores(t: Seq<Station>, closed: bool, k: int, e: int) -> bool {
    t[k].state == State::Served || (t[k].state == State::Bare && bounded(t, closed, k, e))
}

/// How many stations from `k` on stand in a run that is scored.
pub open spec fn scored_stations(t: Seq<Station>, closed: bool, k: int) -> int
    decreases t.len() - k,
{
    if k < 0 || k >= t.len() {
        0
    } else {
        let e = state_end(t, k, t[k].state);
        if e <= k || e > t.len() {
            0
        } else {
            scored_stations(t, closed, e) + if run_scores(t, closed, k, e) {
                e - k
            } else {
                0
            }
        }
    }
}

/// Every station of a scored run is one sample, whatever it scores: closing a
/// gap moves the number instead of removing samples.
pub proof fn every_scored_station_is_one_sample(s: Scores, t: Seq<Station>, closed: bool, zoom: u8, k: int)
    requires
        0 <= k <= t.len(),
    ensures
        gaps_scored(s, t, closed, zoom, k).samples.len() == s.samples.len() + scored_stations(t, closed, k),
    decreases t.len() - k,
{
    if k < t.len() {
        let e = state_end(t, k, t[k].state);
        lemma_state_end(t, k, t[k].state);
        let next = one_run_scored(s, t, closed, zoom, k, e);
        lemma_repeated(s, 0, e - k);
        lemma_repeated(s, gap_value(e - k), e - k);
        every_scored_station_is_one_sample(next, t, closed, zoom, e);
    }
}

proof fn lemma_repeated(s: Scores, sample: int, n: int)
    requires
        0 <= n,
    ensures
        repeated(s, sample, n).samples.len() == s.samples.len() + n,
    decreases n,
{
    if n > 0 {
        lemma_repeated(s, sample, n - 1);
    }
}

/// A bare run longer than the corner reach is a street without a pavement, not
/// a gap: it scores zero, and a shorter one scores its own length.
pub proof fn a_run_past_the_corner_reach_is_no_gap(n: int)
    requires
        0 <= n,
    ensures
        n > GAP_MAX_STATIONS ==> gap_value(n) == 0,
        n <= GAP_MAX_STATIONS ==> gap_value(n) == n * STEP_UM,
        gap_value(n) <= GAP_MAX_STATIONS * STEP_UM,
{
}

// ---------------------------------------------------------------------------
// How much kerb was read.
// ---------------------------------------------------------------------------

/// How many metres of kerb were scored, how many of those a pavement serves,
/// how many were left out, and how many gaps were found. A full count stays
/// full.
#[derive(Clone, Copy, Debug, PartialEq, Eq, Structural)]
pub struct Census {
    pub kerb: u64,
    pub served: u64,
    pub excluded: u64,
    pub gaps: u64,
}

/// A count with `by` more, as far as it can hold them.
pub open spec fn topped(n: u64, by: int) -> u64 {
    if n + by > u64::MAX {
        u64::MAX
    } else {
        (n + by) as u64
    }
}

fn top(n: u64, by: usize) -> (out: u64)
    ensures
        out == topped(n, by as int),
{
    let by: u64 = by as u64;
    if by > u64::MAX - n {
        u64::MAX
    } else {
        n + by
    }
}

/// The census after one run. A run is kerb or left out as a whole, and a bare
/// run longer than the threshold is one gap.
pub open spec fn run_counted(c: Census, t: Seq<Station>, closed: bool, k: int, e: int) -> Census {
    if !run_scores(t, closed, k, e) {
        Census { excluded: topped(c.excluded, e - k), ..c }
    } else if t[k].state == State::Served {
        Census { kerb: topped(c.kerb, e - k), served: topped(c.served, e - k), ..c }
    } else if gap_value(e - k) > GAP_UM {
        Census { kerb: topped(c.kerb, e - k), gaps: topped(c.gaps, 1), ..c }
    } else {
        Census { kerb: topped(c.kerb, e - k), ..c }
    }
}

/// The census after every run from station `k` on.
pub open spec fn runs_counted(c: Census, t: Seq<Station>, closed: bool, k: int) -> Census
    decreases t.len() - k,
{
    if k < 0 || k >= t.len() {
        c
    } else {
        let e = state_end(t, k, t[k].state);
        if e <= k || e > t.len() {
            c
        } else {
            runs_counted(run_counted(c, t, closed, k, e), t, closed, e)
        }
    }
}

/// The census after a chain. All of a closed chain with no pavement is left
/// out.
pub open spec fn chain_counted(c: Census, st: Seq<Station>, closed: bool) -> Census {
    if !closed {
        runs_counted(c, st, false, 0)
    } else {
        match first_served(st, 0) {
            None => Census { excluded: topped(c.excluded, st.len() as int), ..c },
            Some(start) => runs_counted(c, rotated(st, start), true, 0),
        }
    }
}

/// How many stations of a chain are scored.
pub open spec fn chain_scored(st: Seq<Station>, closed: bool) -> int {
    if !closed {
        scored_stations(st, false, 0)
    } else {
        match first_served(st, 0) {
            None => 0,
            Some(start) => scored_stations(rotated(st, start), true, 0),
        }
    }
}

/// How many stations a pavement serves.
pub open spec fn served_count(st: Seq<Station>) -> int
    decreases st.len(),
{
    if st.len() == 0 {
        0
    } else {
        served_count(st.drop_last()) + if st.last().state == State::Served {
            1int
        } else {
            0
        }
    }
}

proof fn lemma_served_joined(a: Seq<Station>, b: Seq<Station>)
    ensures
        served_count(a + b) == served_count(a) + served_count(b),
    decreases b.len(),
{
    if b.len() == 0 {
        assert(a + b =~= a);
    } else {
        assert((a + b).drop_last() =~= a + b.drop_last());
        lemma_served_joined(a, b.drop_last());
    }
}

proof fn lemma_served_alike(st: Seq<Station>, served: bool)
    requires
        forall|i: int| 0 <= i < st.len() ==> ((#[trigger] st[i]).state == State::Served) == served,
    ensures
        served_count(st) == if served {
            st.len() as int
        } else {
            0
        },
    decreases st.len(),
{
    if st.len() > 0 {
        lemma_served_alike(st.drop_last(), served);
    }
}

proof fn lemma_first_served(st: Seq<Station>, k: int)
    requires
        0 <= k <= st.len(),
    ensures
        match first_served(st, k) {
            Some(s) => k <= s < st.len() && st[s].state == State::Served,
            None => forall|i: int| k <= i < st.len() ==> (#[trigger] st[i]).state != State::Served,
        },
    decreases st.len() - k,
{
    if k < st.len() && st[k].state != State::Served {
        lemma_first_served(st, k + 1);
    }
}

/// Every station from `k` on is kerb or left out, never both; the served ones
/// are counted once each.
pub proof fn every_station_is_counted_once(c: Census, t: Seq<Station>, closed: bool, k: int)
    requires
        0 <= k <= t.len(),
    ensures
        0 <= scored_stations(t, closed, k) <= t.len() - k,
        runs_counted(c, t, closed, k).kerb == topped(c.kerb, scored_stations(t, closed, k)),
        runs_counted(c, t, closed, k).excluded == topped(
            c.excluded,
            t.len() - k - scored_stations(t, closed, k),
        ),
        runs_counted(c, t, closed, k).served == topped(c.served, served_count(t.skip(k))),
        0 <= served_count(t.skip(k)),
    decreases t.len() - k,
{
    if k < t.len() {
        let e = state_end(t, k, t[k].state);
        lemma_state_end(t, k, t[k].state);
        let run = t.subrange(k, e);
        assert(t.skip(k) =~= run + t.skip(e));
        lemma_served_joined(run, t.skip(e));
        lemma_served_alike(run, t[k].state == State::Served);
        every_station_is_counted_once(run_counted(c, t, closed, k, e), t, closed, e);
    }
}

/// A chain's kerb and what it leaves out make up the chain, and its served
/// stations are those a pavement serves.
pub proof fn a_chain_is_counted_whole(c: Census, st: Seq<Station>, closed: bool)
    ensures
        0 <= chain_scored(st, closed) <= st.len(),
        chain_counted(c, st, closed).kerb == topped(c.kerb, chain_scored(st, closed)),
        chain_counted(c, st, closed).excluded == topped(c.excluded, st.len() - chain_scored(st, closed)),
        chain_counted(c, st, closed).served == topped(c.served, served_count(st)),
{
    if !closed {
        every_station_is_counted_once(c, st, false, 0);
        assert(st.skip(0) =~= st);
    } else {
        lemma_first_served(st, 0);
        match first_served(st, 0) {
            None => {
                lemma_served_alike(st, false);
            },
            Some(start) => {
                let t = rotated(st, start);
                every_station_is_counted_once(c, t, true, 0);
                assert(t.skip(0) =~= t);
                lemma_served_joined(st.skip(start), st.take(start));
                lemma_served_joined(st.take(start), st.skip(start));
                assert(st.take(start) + st.skip(start) =~= st);
            },
        }
    }
}

/// Every metre of a chain that counts as kerb is one sample of the gap metric.
pub proof fn a_chain_samples_its_kerb(s: Scores, st: Seq<Station>, closed: bool, zoom: u8)
    ensures
        chain_gaps_scored(s, st, closed, zoom).samples.len() == s.samples.len() + chain_scored(st, closed),
{
    if !closed {
        every_scored_station_is_one_sample(s, st, false, zoom, 0);
    } else if let Some(start) = first_served(st, 0) {
        every_scored_station_is_one_sample(s, rotated(st, start), true, zoom, 0);
    }
}

/// What the first `n` chains add to the census: chains of the at-grade road
/// surface only.
pub open spec fn chains_counted(c: Census, roads: Seq<RoadMesh>, chains: Seq<StationChain>, n: int) -> Census
    decreases n,
{
    if n <= 0 {
        c
    } else {
        let rest = chains_counted(c, roads, chains, n - 1);
        let chain = chains[n - 1];
        if road_surface(roads[chain.road as int]) {
            chain_counted(rest, stations_of(roads, chain), chain.closed)
        } else {
            rest
        }
    }
}

/// The kerb check.
#[derive(Debug)]
pub struct Kerb {
    pub gap: Tally,
    pub jog: Tally,
    pub census: Census,
    /// Whether any tile at a zoom that meshes pedestrian bands was seen.
    pub measured: bool,
}

/// A chain of stations along a road surface's silhouette.
#[derive(Debug)]
pub struct StationChain {
    pub road: u32,
    pub closed: bool,
    pub stations: Vec<StationReading>,
}

pub open spec fn stations_of(roads: Seq<RoadMesh>, c: StationChain) -> Seq<Station> {
    Seq::new(c.stations@.len(), |i: int| station_of(roads, c.stations@[i]))
}

pub open spec fn chain_fits(roads: Seq<RoadMesh>, c: StationChain) -> bool {
    c.road < roads.len() && forall|i: int| 0 <= i < c.stations@.len() ==> (#[trigger] c.stations@[i]).covers(roads)
}

/// What the first `n` chains add to the gap metric: chains of the at-grade
/// road surface only.
pub open spec fn chains_gaps_scored(s: Scores, roads: Seq<RoadMesh>, chains: Seq<StationChain>, zoom: u8, n: int) -> Scores
    decreases n,
{
    if n <= 0 {
        s
    } else {
        let rest = chains_gaps_scored(s, roads, chains, zoom, n - 1);
        let c = chains[n - 1];
        if road_surface(roads[c.road as int]) {
            chain_gaps_scored(rest, stations_of(roads, c), c.closed, zoom)
        } else {
            rest
        }
    }
}

/// What the first `n` chains add to the wander metric.
pub open spec fn chains_wander_scored(s: Scores, roads: Seq<RoadMesh>, chains: Seq<StationChain>, zoom: u8, n: int) -> Scores
    decreases n,
{
    if n <= 0 {
        s
    } else {
        let rest = chains_wander_scored(s, roads, chains, zoom, n - 1);
        let c = chains[n - 1];
        if road_surface(roads[c.road as int]) {
            wander_scored(rest, stations_of(roads, c), zoom, 0)
        } else {
            rest
        }
    }
}

impl Kerb {
    pub open spec fn well_formed(&self) -> bool {
        self.gap.well_formed() && self.jog.well_formed()
    }

    pub fn new(opt: &Options) -> (out: Kerb)
        requires
            opt.worst_k < usize::MAX,
        ensures
            out.well_formed(),
            !out.measured,
            out.census == (Census { kerb: 0, served: 0, excluded: 0, gaps: 0 }),
            out.gap@ == fresh(opt.worst_k),
            out.jog@ == fresh(opt.worst_k),
    {
        Kerb {
            gap: Tally::new(Sense::HigherIsWorse, opt.worst_k),
            jog: Tally::new(Sense::HigherIsWorse, opt.worst_k),
            census: Census { kerb: 0, served: 0, excluded: 0, gaps: 0 },
            measured: false,
        }
    }

    /// Scores the wander of one run of measured stations.
    fn score_run(&mut self, st: &Vec<Station>, zoom: u8, from: usize, to: usize)
        requires
            old(self).well_formed(),
            from <= to <= st@.len(),
            forall|i: int| from <= i < to ==> (#[trigger] st@[i]).width is Some,
        ensures
            final(self).well_formed(),
            final(self).jog@ == run_scored(old(self).jog@, st@, zoom, from as int, to as int, to as int),
            final(self).gap == old(self).gap,
            final(self).measured == old(self).measured,
            final(self).census == old(self).census,
    {
        let ghost start = self.jog@;
        let mut i: usize = from;
        while i < to
            invariant
                from <= i <= to <= st@.len(),
                forall|k: int| from <= k < to ==> (#[trigger] st@[k]).width is Some,
                self.well_formed(),
                self.jog@ == run_scored(start, st@, zoom, from as int, i as int, to as int),
                self.gap == old(self).gap,
                self.measured == old(self).measured,
                self.census == old(self).census,
            decreases to - i,
        {
            let j: usize = if to - 1 - i > JOG_WINDOW { i + JOG_WINDOW } else { to - 1 };
            assert(j == window_end(i as int, to as int));
            assert(st@[i as int].width is Some);
            assert(st@[j as int].width is Some);
            let here: i64 = st[i].width.unwrap();
            let there: i64 = st[j].width.unwrap();
            let mut total: i128 = 0;
            let mut prev: i64 = here;
            let mut k: usize = i;
            while k < j
                invariant
                    from <= i <= k <= j < to <= st@.len(),
                    j - i <= JOG_WINDOW,
                    forall|m: int| from <= m < to ==> (#[trigger] st@[m]).width is Some,
                    prev == st@[k as int].width->0,
                    total == variation(st@, i as int, k as int),
                    0 <= total <= (k - i) * 0x1_0000_0000_0000_0000,
                decreases j - k,
            {
                assert(st@[k + 1].width is Some);
                let next: i64 = st[k + 1].width.unwrap();
                let change: i128 = distance(next, prev) as i128 - WIDTH_DEADBAND_UM;
                if change > 0 {
                    total = total + change;
                }
                prev = next;
                k = k + 1;
            }
            let net: i128 = distance(there, here) as i128;
            let w: i128 = if total - net > 0 { total - net } else { 0 };
            let offender: Option<Offender> = if w > WIDTH_JOG_UM {
                Some(
                    Offender {
                        place: st[i].place,
                        zoom,
                        value: w,
                        note: Note::WidthWander { stations: (j - i) as u64, here, there },
                    },
                )
            } else {
                None
            };
            self.jog.record(w, offender);
            i = i + 1;
        }
    }

    /// Scores the wander of a chain's outer edge.
    fn score_wander(&mut self, st: &Vec<Station>, zoom: u8)
        requires
            old(self).well_formed(),
        ensures
            final(self).well_formed(),
            final(self).jog@ == wander_scored(old(self).jog@, st@, zoom, 0),
            final(self).gap == old(self).gap,
            final(self).measured == old(self).measured,
            final(self).census == old(self).census,
    {
        let ghost want = wander_scored(self.jog@, st@, zoom, 0);
        let mut k: usize = 0;
        while k < st.len()
            invariant
                k <= st@.len(),
                self.well_formed(),
                want == wander_scored(self.jog@, st@, zoom, k as int),
                self.gap == old(self).gap,
                self.measured == old(self).measured,
                self.census == old(self).census,
            decreases st@.len() - k,
        {
            let mut to: usize = k;
            proof {
                lemma_run_end(st@, k as int);
            }
            while to < st.len() && st[to].width.is_some()
                invariant
                    k <= to <= st@.len(),
                    run_end(st@, k as int) == run_end(st@, to as int),
                decreases st@.len() - to,
            {
                to = to + 1;
            }
            assert(to == run_end(st@, k as int));
            if to - k >= 3 {
                self.score_run(st, zoom, k, to);
            }
            assert(want == wander_scored(self.jog@, st@, zoom, to + 1));
            k = if to < st.len() { to + 1 } else { st.len() };
        }
    }

    /// Records the same sample `n` times.
    fn repeat(&mut self, sample: i128, n: usize)
        requires
            old(self).well_formed(),
        ensures
            final(self).well_formed(),
            final(self).gap@ == repeated(old(self).gap@, sample as int, n as int),
            final(self).jog == old(self).jog,
            final(self).measured == old(self).measured,
            final(self).census == old(self).census,
    {
        let ghost start = self.gap@;
        let mut i: usize = 0;
        while i < n
            invariant
                i <= n,
                self.well_formed(),
                self.gap@ == repeated(start, sample as int, i as int),
                self.jog == old(self).jog,
                self.measured == old(self).measured,
                self.census == old(self).census,
            decreases n - i,
        {
            self.gap.record(sample, None);
            i = i + 1;
        }
    }

    /// Scores one run of stations of the same state.
    fn score_state_run(&mut self, t: &Vec<Station>, closed: bool, zoom: u8, k: usize, e: usize)
        requires
            old(self).well_formed(),
            k < e <= t@.len(),
        ensures
            final(self).well_formed(),
            final(self).gap@ == one_run_scored(old(self).gap@, t@, closed, zoom, k as int, e as int),
            final(self).census == run_counted(old(self).census, t@, closed, k as int, e as int),
            final(self).jog == old(self).jog,
            final(self).measured == old(self).measured,
    {
        let n: usize = e - k;
        match t[k].state {
            State::Unknown => {
                self.census.excluded = top(self.census.excluded, n);
            },
            State::Served => {
                self.census.kerb = top(self.census.kerb, n);
                self.census.served = top(self.census.served, n);
                self.repeat(0, n);
            },
            State::Bare => {
                let before: bool = if k > 0 {
                    t[k - 1].state == State::Served
                } else {
                    closed && t[t.len() - 1].state == State::Served
                };
                let after: bool = if e < t.len() {
                    t[e].state == State::Served
                } else {
                    closed && t[0].state == State::Served
                };
                if !before || !after {
                    self.census.excluded = top(self.census.excluded, n);
                } else {
                    self.census.kerb = top(self.census.kerb, n);
                    let v: i128 = if n <= GAP_MAX_STATIONS { n as i128 * STEP_UM } else { 0 };
                    self.repeat(v, n);
                    if v > GAP_UM {
                        self.census.gaps = top(self.census.gaps, 1);
                        let mid: usize = k + n / 2;
                        assert(mid == (k + e) / 2);
                        self.gap.offer(
                            Offender {
                                place: t[mid].place,
                                zoom,
                                value: v,
                                note: Note::KerbGap { stations: n as u64 },
                            },
                        );
                    }
                }
            },
        }
    }

    /// Scores every run of a chain in order.
    fn score_gaps(&mut self, t: &Vec<Station>, closed: bool, zoom: u8)
        requires
            old(self).well_formed(),
        ensures
            final(self).well_formed(),
            final(self).gap@ == gaps_scored(old(self).gap@, t@, closed, zoom, 0),
            final(self).census == runs_counted(old(self).census, t@, closed, 0),
            final(self).jog == old(self).jog,
            final(self).measured == old(self).measured,
    {
        let ghost want = gaps_scored(self.gap@, t@, closed, zoom, 0);
        let ghost counted = runs_counted(self.census, t@, closed, 0);
        let mut k: usize = 0;
        while k < t.len()
            invariant
                k <= t@.len(),
                self.well_formed(),
                want == gaps_scored(self.gap@, t@, closed, zoom, k as int),
                counted == runs_counted(self.census, t@, closed, k as int),
                self.jog == old(self).jog,
                self.measured == old(self).measured,
            decreases t@.len() - k,
        {
            let state: State = t[k].state;
            proof {
                lemma_state_end(t@, k as int, state);
            }
            let mut e: usize = k;
            while e < t.len() && t[e].state == state
                invariant
                    k <= e <= t@.len(),
                    state_end(t@, k as int, state) == state_end(t@, e as int, state),
                decreases t@.len() - e,
            {
                e = e + 1;
            }
            assert(e == state_end(t@, k as int, state));
            self.score_state_run(t, closed, zoom, k, e);
            k = e;
        }
    }

    /// Scores one chain of stations: the wander of the pavement's edge, and
    /// the gaps between its pavements.
    pub fn score_chain(&mut self, st: &Vec<Station>, closed: bool, zoom: u8)
        requires
            old(self).well_formed(),
        ensures
            final(self).well_formed(),
            final(self).jog@ == wander_scored(old(self).jog@, st@, zoom, 0),
            final(self).gap@ == chain_gaps_scored(old(self).gap@, st@, closed, zoom),
            final(self).gap@.samples.len() == old(self).gap@.samples.len() + chain_scored(st@, closed),
            final(self).census == chain_counted(old(self).census, st@, closed),
            final(self).census.kerb == topped(old(self).census.kerb, chain_scored(st@, closed)),
            final(self).census.excluded == topped(
                old(self).census.excluded,
                st@.len() - chain_scored(st@, closed),
            ),
            final(self).census.served == topped(old(self).census.served, served_count(st@)),
            old(self).census.kerb + st@.len() <= u64::MAX && old(self).census.excluded + st@.len() <= u64::MAX
                ==> final(self).census.kerb + final(self).census.excluded == old(self).census.kerb + old(
                self,
            ).census.excluded + st@.len(),
            final(self).measured == old(self).measured,
    {
        proof {
            a_chain_is_counted_whole(self.census, st@, closed);
            a_chain_samples_its_kerb(self.gap@, st@, closed, zoom);
        }
        let n: usize = st.len();
        self.score_wander(st, zoom);
        if !closed {
            self.score_gaps(st, false, zoom);
            return;
        }
        let mut start: usize = 0;
        while start < n && st[start].state != State::Served
            invariant
                start <= n,
                n == st@.len(),
                first_served(st@, 0) == first_served(st@, start as int),
            decreases n - start,
        {
            start = start + 1;
        }
        if start == n {
            self.census.excluded = top(self.census.excluded, n);
            return;
        }
        let mut t: Vec<Station> = Vec::new();
        let mut i: usize = start;
        while i < n
            invariant
                start <= i <= n,
                n == st@.len(),
                t@ == st@.subrange(start as int, i as int),
            decreases n - i,
        {
            t.push(st[i]);
            assert(st@.subrange(start as int, i + 1) =~= st@.subrange(start as int, i as int).push(st@[i as int]));
            i = i + 1;
        }
        assert(t@ =~= st@.skip(start as int));
        let mut i: usize = 0;
        while i < start
            invariant
                i <= start <= n,
                n == st@.len(),
                t@ == st@.skip(start as int) + st@.take(i as int),
            decreases start - i,
        {
            t.push(st[i]);
            assert(st@.skip(start as int) + st@.take(i + 1) =~= (st@.skip(start as int) + st@.take(i as int)).push(
                st@[i as int],
            ));
            i = i + 1;
        }
        self.score_gaps(&t, true, zoom);
    }

    /// Scores every chain of a tile's road surfaces, at the zooms that mesh
    /// pedestrian bands.
    pub fn visit(&mut self, zoom: u8, roads: &[RoadMesh], chains: &[StationChain])
        requires
            old(self).well_formed(),
            forall|i: int| 0 <= i < chains@.len() ==> chain_fits(roads@, #[trigger] chains@[i]),
        ensures
            final(self).well_formed(),
            zoom < WALK_SURFACE_MIN_ZOOM ==> {
                &&& final(self).gap == old(self).gap
                &&& final(self).jog == old(self).jog
                &&& final(self).census == old(self).census
                &&& final(self).measured == old(self).measured
            },
            zoom >= WALK_SURFACE_MIN_ZOOM ==> {
                &&& final(self).measured
                &&& final(self).gap@ == chains_gaps_scored(old(self).gap@, roads@, chains@, zoom, chains@.len() as int)
                &&& final(self).jog@ == chains_wander_scored(old(self).jog@, roads@, chains@, zoom, chains@.len() as int)
                &&& final(self).census == chains_counted(old(self).census, roads@, chains@, chains@.len() as int)
            },
    {
        if zoom < WALK_SURFACE_MIN_ZOOM {
            return;
        }
        self.measured = true;
        let ghost gap0 = self.gap@;
        let ghost jog0 = self.jog@;
        let ghost census0 = self.census;
        let mut i: usize = 0;
        while i < chains.len()
            invariant
                i <= chains@.len(),
                forall|k: int| 0 <= k < chains@.len() ==> chain_fits(roads@, #[trigger] chains@[k]),
                self.well_formed(),
                self.measured,
                self.gap@ == chains_gaps_scored(gap0, roads@, chains@, zoom, i as int),
                self.jog@ == chains_wander_scored(jog0, roads@, chains@, zoom, i as int),
                self.census == chains_counted(census0, roads@, chains@, i as int),
            decreases chains@.len() - i,
        {
            let c: &StationChain = &chains[i];
            assert(chain_fits(roads@, chains@[i as int]));
            if is_road_surface(&roads[c.road as usize]) {
                let mut st: Vec<Station> = Vec::new();
                let mut k: usize = 0;
                while k < c.stations.len()
                    invariant
                        k <= c.stations@.len(),
                        chain_fits(roads@, *c),
                        st@.len() == k,
                        forall|j: int| 0 <= j < k ==> #[trigger] st@[j] == station_of(roads@, c.stations@[j]),
                    decreases c.stations@.len() - k,
                {
                    assert(c.stations@[k as int].covers(roads@));
                    st.push(station(roads, &c.stations[k]));
                    k = k + 1;
                }
                assert(st@ =~= stations_of(roads@, *c));
                self.score_chain(&st, c.closed, zoom);
            }
            i = i + 1;
        }
    }

    /// What the finished metrics say.
    pub open spec fn reported(&self, out: Seq<Metric>) -> bool {
        &&& out.len() == 2
        &&& out[0].reports("street.walk_width_step"@, Invariant::I1, WIDTH_JOG_UM as int, !self.measured, self.jog@)
        &&& out[1].reports("street.kerb_gap"@, Invariant::I1, GAP_UM as int, !self.measured, self.gap@)
    }

    pub fn finish(self) -> (out: Vec<Metric>)
        ensures
            self.reported(out@),
    {
        let mut out: Vec<Metric> = Vec::new();
        out.push(Metric::close("street.walk_width_step", Invariant::I1, WIDTH_JOG_UM, !self.measured, self.jog));
        out.push(Metric::close("street.kerb_gap", Invariant::I1, GAP_UM, !self.measured, self.gap));
        out
    }
}

} // verus!
