//! What the contact check finds, place by place.
use vstd::prelude::*;

use crate::text::starts_with;
use crate::verify::checks::contact::{
    beside_ground, carried_scored, carrier, carrier_of, carries, drawn_ground, hits, join_of, lips_scored, lower_end,
    on_deck, rail_line_scored, rail_part_scored, rail_scored, rims_scored, rises, seat_depth, seats_scored, sink_of,
    upper_end, walk_height, wall_climb, walled, Alongside, Deck, DeckEnd, KerbEdge, Line, LineVertex, RimEdge,
};
use crate::verify::checks::deck::run_along;
use crate::verify::findings::{above, gathered, gathered_rows, gathered_sheets, Finding};
use crate::verify::scene::{apron_spanning, paved_height, Probe, RoadMesh};
use crate::verify::{Note, Offender, Scores};

verus! {

// ---------------------------------------------------------------------------
// Ground.
// ---------------------------------------------------------------------------

/// Through the hole under the asphalt the carriageway is the ground.
pub proof fn the_ground_is_the_terrain_or_the_carriageway(roads: Seq<RoadMesh>, p: Probe)
    ensures
        p.terrain is Some ==> drawn_ground(roads, p) == p.terrain,
        p.terrain is None ==> drawn_ground(roads, p) == paved_height(roads, p, roads.len() as int),
{
}

/// Beside a kerb the first walkway or path band laid there answers, and the
/// terrain where none is.
pub proof fn a_band_beside_a_kerb_answers_first(roads: Seq<RoadMesh>, p: Probe, n: int, k: int)
    requires
        0 <= k,
        0 <= n,
        forall|j: int| 0 <= j < k && j < n ==> !is_band_at_grade(#[trigger] roads[j]) || p.heights@[j] is None,
        k < n ==> is_band_at_grade(roads[k]) && p.heights@[k] is Some,
    ensures
        walk_height(roads, p, n) == if k < n {
            p.heights@[k]
        } else {
            None
        },
        n == roads.len() ==> beside_ground(roads, p) == if k < n {
            p.heights@[k]
        } else {
            p.terrain
        },
    decreases n,
{
    if n > 0 {
        a_band_beside_a_kerb_answers_first(roads, p, n - 1, k);
        if n - 1 < k {
            assert(!is_band_at_grade(roads[n - 1]) || p.heights@[n - 1] is None);
        }
    }
}

pub open spec fn is_band_at_grade(r: RoadMesh) -> bool {
    r.level == 0 && (starts_with(r.class@, "walk_"@) || starts_with(r.class@, "path_"@))
}

// ---------------------------------------------------------------------------
// Kerbs and rims.
// ---------------------------------------------------------------------------

/// Every owned edge of at-grade pavement that has ground beside it is measured
/// by how far it stands above it, and is past the limit above half a metre.
pub proof fn every_kerb_is_measured_against_what_is_beside_it(
    s: Scores,
    roads: Seq<RoadMesh>,
    kerbs: Seq<KerbEdge>,
    zoom: u8,
    found: Seq<Option<Finding>>,
    n: int,
)
    requires
        0 <= n <= kerbs.len() == found.len(),
        forall|i: int|
            0 <= i < kerbs.len() ==> #[trigger] found[i] == ({
                let e = kerbs[i];
                if roads[e.road as int].pavement && e.owned && e.outside is Some && beside_ground(roads, e.outside->0) is Some {
                    let ground = beside_ground(roads, e.outside->0)->0;
                    above(
                        e.height - ground,
                        500_000,
                        Offender {
                            place: e.place,
                            zoom,
                            value: (e.height - ground) as i128,
                            note: Note::KerbLip { kerb: e.height, ground },
                        },
                    )
                } else {
                    None
                }
            }),
    ensures
        lips_scored(s, roads, kerbs, zoom, n) == gathered(s, found, n),
    decreases n,
{
    if n > 0 {
        every_kerb_is_measured_against_what_is_beside_it(s, roads, kerbs, zoom, found, n - 1);
        let f = found[n - 1];
    }
}

/// Whether a step between asphalt and terrain is closed: half a metre at most,
/// or an apron stands over it.
pub open spec fn is_closed(roads: Seq<RoadMesh>, p: Probe, road: int, rim: int) -> bool {
    let lo = if road < rim {
        road
    } else {
        rim
    };
    let hi = if road < rim {
        rim
    } else {
        road
    };
    hi - lo <= 500_000 || apron_spanning(roads, p, lo, hi, roads.len() as int)
}

/// Every owned rim of the terrain inside the tile that asphalt covers is
/// measured: nothing where the step is closed, and the step where it is open,
/// which is past the limit.
pub proof fn every_open_rim_is_past_the_limit(
    s: Scores,
    roads: Seq<RoadMesh>,
    rims: Seq<RimEdge>,
    zoom: u8,
    found: Seq<Option<Finding>>,
    n: int,
)
    requires
        0 <= n <= rims.len() == found.len(),
        forall|i: int|
            0 <= i < rims.len() ==> #[trigger] found[i] == ({
                let e = rims[i];
                let road = paved_height(roads, e.at, roads.len() as int);
                if e.at.owned && !e.on_tile_edge && road is Some {
                    let gap = if road->0 < e.height {
                        e.height - road->0
                    } else {
                        road->0 - e.height
                    };
                    if is_closed(roads, e.at, road->0 as int, e.height as int) {
                        Some(Finding { sample: 0, offender: None })
                    } else {
                        above(
                            gap,
                            500_000,
                            Offender {
                                place: e.at.place,
                                zoom,
                                value: gap as i128,
                                note: Note::KerbUnwalled { road: road->0, rim: e.height },
                            },
                        )
                    }
                } else {
                    None
                }
            }),
    ensures
        rims_scored(s, roads, rims, zoom, n) == gathered(s, found, n),
    decreases n,
{
    if n > 0 {
        every_open_rim_is_past_the_limit(s, roads, rims, zoom, found, n - 1);
        let e = rims[n - 1];
        let f = found[n - 1];
        let road = paved_height(roads, e.at, roads.len() as int);
        if road is Some {
            assert(walled(roads, e.at, road->0 as int, e.height as int) == is_closed(
                roads,
                e.at,
                road->0 as int,
                e.height as int,
            ));
        }
    }
}

// ---------------------------------------------------------------------------
// Decks.
// ---------------------------------------------------------------------------

proof fn lemma_rises(axis: Seq<i64>, tops: Seq<Option<i64>>, n: int)
    requires
        0 <= n <= axis.len() == tops.len(),
    ensures
        rises(axis, tops, n).len() <= n,
        forall|i: int|
            0 <= i < n && (#[trigger] tops[i]) is Some ==> rises(axis, tops, n).contains(tops[i]->0 - axis[i]),
        forall|k: int|
            0 <= k < rises(axis, tops, n).len() ==> exists|i: int|
                0 <= i < n && (#[trigger] tops[i]) is Some && #[trigger] rises(axis, tops, n)[k] == tops[i]->0 - axis[i],
    decreases n,
{
    if n > 0 {
        lemma_rises(axis, tops, n - 1);
        let rest = rises(axis, tops, n - 1);
        let all = rises(axis, tops, n);
        if tops[n - 1] is Some {
            assert(all[rest.len() as int] == tops[n - 1]->0 - axis[n - 1]);
        }
        assert forall|i: int| 0 <= i < n && (#[trigger] tops[i]) is Some implies all.contains(tops[i]->0 - axis[i]) by {
            if i < n - 1 {
                assert(rest.contains(tops[i]->0 - axis[i]));
                let k = choose|k: int| 0 <= k < rest.len() && rest[k] == tops[i]->0 - axis[i];
                assert(all[k] == rest[k]);
            }
        }
        assert forall|k: int| 0 <= k < all.len() implies exists|i: int|
            0 <= i < n && (#[trigger] tops[i]) is Some && #[trigger] all[k] == tops[i]->0 - axis[i] by {
            if k < rest.len() {
                assert(all[k] == rest[k]);
            } else {
                assert(tops[n - 1] is Some);
            }
        }
    }
}

proof fn lemma_sink(r: Seq<int>, n: int)
    requires
        0 <= n <= r.len(),
    ensures
        sink_of(r, n) >= 0,
        forall|i: int| 0 <= i < n ==> #[trigger] r[i] <= sink_of(r, n),
        sink_of(r, n) == 0 || exists|i: int| 0 <= i < n && #[trigger] r[i] == sink_of(r, n),
    decreases n,
{
    if n > 0 {
        lemma_sink(r, n - 1);
        if r[n - 1] > sink_of(r, n - 1) {
            assert(r[n - 1] == sink_of(r, n));
        }
    }
}

/// A deck sinks by the furthest the one beside it stands above it anywhere the
/// two run together, and not at all where it stands above it nowhere.
pub proof fn a_deck_sinks_by_the_furthest_it_is_below(axis: Seq<i64>, tops: Seq<Option<i64>>, i: int)
    requires
        axis.len() == tops.len(),
    ensures
        ({
            let r = rises(axis, tops, axis.len() as int);
            let sink = sink_of(r, r.len() as int);
            &&& sink >= 0
            &&& 0 <= i < axis.len() && tops[i] is Some ==> tops[i]->0 - axis[i] <= sink
            &&& sink == 0 || exists|j: int|
                0 <= j < axis.len() && (#[trigger] tops[j]) is Some && tops[j]->0 - axis[j] == sink
        }),
{
    let r = rises(axis, tops, axis.len() as int);
    lemma_rises(axis, tops, axis.len() as int);
    lemma_sink(r, r.len() as int);
    if 0 <= i < axis.len() && tops[i] is Some {
        let k = choose|k: int| 0 <= k < r.len() && r[k] == tops[i]->0 - axis[i];
        assert(r[k] <= sink_of(r, r.len() as int));
    }
    let sink = sink_of(r, r.len() as int);
    if sink != 0 {
        let k = choose|k: int| 0 <= k < r.len() && #[trigger] r[k] == sink;
        let j = choose|j: int| 0 <= j < axis.len() && (#[trigger] tops[j]) is Some && r[k] == tops[j]->0 - axis[j];
        assert(tops[j] is Some && tops[j]->0 - axis[j] == sink);
    }
}

/// Whether a deck carries another: it is a solved deck that runs along it, was
/// found at seven tenths of its samples, and at the first or the last of them
/// stands within three metres of it.
pub open spec fn is_carrier(roads: Seq<RoadMesh>, d: Deck, c: Alongside) -> bool {
    let r = rises(d.axis@, c.tops@, d.axis@.len() as int);
    &&& roads[c.road as int].deck && !roads[c.road as int].fitted
    &&& run_along(d.heading, c.heading)
    &&& r.len() > 0
    &&& r.len() * 10 >= d.axis@.len() * 7
    &&& -3_000_000 <= r[0] <= 3_000_000 || -3_000_000 <= r.last() <= 3_000_000
}

/// The deck that carries another is the one beside it for the most of it, the
/// earliest of several; none where none carries it, or it is shorter than a
/// metre or has no two samples.
pub proof fn the_carrier_is_beside_the_most(roads: Seq<RoadMesh>, d: Deck, n: int)
    requires
        0 <= n <= d.beside@.len(),
    ensures
        match carrier_of(roads, d, n) {
            Some(k) => {
                &&& 0 <= k < n
                &&& is_carrier(roads, d, d.beside@[k])
                &&& forall|j: int|
                    0 <= j < n && is_carrier(roads, d, #[trigger] d.beside@[j]) ==> hits(d, d.beside@[j]) <= hits(
                        d,
                        d.beside@[k],
                    )
                &&& forall|j: int|
                    0 <= j < k && is_carrier(roads, d, #[trigger] d.beside@[j]) ==> hits(d, d.beside@[j]) < hits(
                        d,
                        d.beside@[k],
                    )
            },
            None => forall|j: int| 0 <= j < n ==> !is_carrier(roads, d, #[trigger] d.beside@[j]),
        },
        d.length < 1_000_000 || d.axis@.len() < 2 ==> carrier(roads, d) is None,
        d.length >= 1_000_000 && d.axis@.len() >= 2 ==> carrier(roads, d) == carrier_of(roads, d, d.beside@.len() as int),
    decreases n,
{
    if n > 0 {
        the_carrier_is_beside_the_most(roads, d, n - 1);
        let c = d.beside@[n - 1];
        assert(carries(roads, d, c) == is_carrier(roads, d, c));
    }
}

/// Every fitted deck both of whose ends are owned and that another carries is
/// measured by how far it sinks below it, and is past the limit above a metre.
pub proof fn every_carried_deck_is_measured(
    s: Scores,
    roads: Seq<RoadMesh>,
    decks: Seq<Deck>,
    zoom: u8,
    found: Seq<Option<Finding>>,
    n: int,
)
    requires
        0 <= n <= decks.len() == found.len(),
        forall|i: int|
            0 <= i < decks.len() ==> #[trigger] found[i] == ({
                let d = decks[i];
                if roads[d.road as int].fitted && d.ends is Some && (d.ends->0).0.owned && (d.ends->0).1.owned && carrier(
                    roads,
                    d,
                ) is Some {
                    let c = d.beside@[carrier(roads, d)->0];
                    let r = rises(d.axis@, c.tops@, d.axis@.len() as int);
                    let sink = sink_of(r, r.len() as int);
                    above(
                        sink,
                        1_000_000,
                        Offender {
                            place: (d.ends->0).0.place,
                            zoom,
                            value: sink as i128,
                            note: Note::CarriedDeck {
                                class: roads[d.road as int].class,
                                carrier: roads[c.road as int].class,
                                hits: r.len() as u64,
                                samples: d.axis@.len() as u64,
                                join: join_of(r) as u128,
                            },
                        },
                    )
                } else {
                    None
                }
            }),
    ensures
        carried_scored(s, roads, decks, zoom, n) == gathered(s, found, n),
    decreases n,
{
    if n > 0 {
        every_carried_deck_is_measured(s, roads, decks, zoom, found, n - 1);
        let f = found[n - 1];
    }
}

/// Whether the ground past an abutment climbs like a wall for the first `m`
/// steps of a march: it is drawn at each, and each stands at least a metre and a
/// fifth above the one before.
pub open spec fn climbs(roads: Seq<RoadMesh>, march: Seq<Probe>, prev: int, k: int, m: int) -> bool
    decreases m - k,
{
    k >= m || ({
        let h = drawn_ground(roads, march[k]);
        h is Some && h->0 - prev >= 1_200_000 && climbs(roads, march, h->0 as int, k + 1, m)
    })
}

/// The ground at the last of the first `m` steps of a march.
pub open spec fn ground_after(roads: Seq<RoadMesh>, march: Seq<Probe>, prev: int, m: int) -> int {
    if m <= 0 {
        prev
    } else {
        drawn_ground(roads, march[m - 1])->0 as int
    }
}

/// A wall beside an abutment is climbed as far as it is one: up to the last step
/// that climbs like one, over ten steps at most.
pub proof fn a_wall_is_climbed_to_its_top(roads: Seq<RoadMesh>, march: Seq<Probe>, low: int, prev: int, climbed: int, k: int, m: int)
    requires
        0 <= k <= m <= march.len(),
        m <= 10,
        climbs(roads, march, prev, k, m),
        m < 10 && m < march.len() ==> {
            let h = drawn_ground(roads, march[m]);
            let top = if m == k {
                prev
            } else {
                ground_after(roads, march, prev, m)
            };
            h is None || h->0 - top < 1_200_000
        },
        prev - low <= climbed,
    ensures
        wall_climb(roads, march, low, prev, climbed, k) == ({
            let top = if m == k {
                prev
            } else {
                ground_after(roads, march, prev, m)
            };
            if m > k && top - low > climbed {
                top - low
            } else {
                climbed
            }
        }),
    decreases m - k,
{
    if k < m {
        let h = drawn_ground(roads, march[k])->0 as int;
        let next = if climbed < h - low {
            h - low
        } else {
            climbed
        };
        a_wall_is_climbed_to_its_top(roads, march, low, h, next, k + 1, m);
        if k + 1 < m {
            lemma_climbs_on(roads, march, h, k + 1, m);
        }
    }
}

proof fn lemma_climbs_on(roads: Seq<RoadMesh>, march: Seq<Probe>, prev: int, k: int, m: int)
    requires
        0 <= k < m,
        climbs(roads, march, prev, k, m),
    ensures
        ground_after(roads, march, prev, m) > prev,
    decreases m - k,
{
    let h = drawn_ground(roads, march[k])->0 as int;
    if k + 1 < m {
        lemma_climbs_on(roads, march, h, k + 1, m);
    }
}

/// A deck's lower end is the one whose top is lower, the first of two alike; its
/// seat is measured there, from the ground drawn under it or its own top where
/// none is, and is never deeper than the deck falls.
pub proof fn a_seat_is_measured_at_the_lower_end(roads: Seq<RoadMesh>, ends: (DeckEnd, DeckEnd))
    ensures
        ends.0.top <= ends.1.top ==> lower_end(ends) == ends.0 && upper_end(ends) == ends.1,
        ends.0.top > ends.1.top ==> lower_end(ends) == ends.1 && upper_end(ends) == ends.0,
        ({
            let low = lower_end(ends);
            let high = upper_end(ends);
            let start = match drawn_ground(roads, low.ground) {
                Some(h) => h as int,
                None => low.top as int,
            };
            let first = if start > low.top {
                start - low.top
            } else {
                0
            };
            let climb = wall_climb(roads, low.march@, low.top as int, start, first, 0);
            &&& 0 <= seat_depth(roads, ends) <= high.top - low.top
            &&& 0 <= climb <= high.top - low.top ==> seat_depth(roads, ends) == climb
            &&& climb > high.top - low.top ==> seat_depth(roads, ends) == high.top - low.top
        }),
{
}

/// Every fitted deck a metre long both of whose ends are owned is measured by how
/// far it is seated below the wall beside it, and is past the limit above two
/// metres.
pub proof fn every_fitted_deck_is_measured_at_its_seat(
    s: Scores,
    roads: Seq<RoadMesh>,
    decks: Seq<Deck>,
    zoom: u8,
    found: Seq<Option<Finding>>,
    n: int,
)
    requires
        0 <= n <= decks.len() == found.len(),
        forall|i: int|
            0 <= i < decks.len() ==> #[trigger] found[i] == ({
                let d = decks[i];
                if roads[d.road as int].fitted && d.ends is Some && (d.ends->0).0.owned && (d.ends->0).1.owned && d.length
                    >= 1_000_000 {
                    let depth = seat_depth(roads, d.ends->0);
                    let low = lower_end(d.ends->0);
                    above(
                        depth,
                        2_000_000,
                        Offender {
                            place: low.place,
                            zoom,
                            value: depth as i128,
                            note: Note::DeckSeat {
                                class: roads[d.road as int].class,
                                low: low.top,
                                high: upper_end(d.ends->0).top,
                            },
                        },
                    )
                } else {
                    None
                }
            }),
    ensures
        seats_scored(s, roads, decks, zoom, n) == gathered(s, found, n),
    decreases n,
{
    if n > 0 {
        every_fitted_deck_is_measured_at_its_seat(s, roads, decks, zoom, found, n - 1);
        let f = found[n - 1];
    }
}

// ---------------------------------------------------------------------------
// Rails.
// ---------------------------------------------------------------------------

/// Whether a deck under a point carries a stroke at a height: its surface is less
/// than a metre from it.
pub open spec fn rides_a_deck(roads: Seq<RoadMesh>, p: Probe, h: int) -> bool {
    exists|k: int|
        0 <= k < roads.len() && (#[trigger] roads[k]).deck && (p.heights@[k] matches Some(top) && -1_000_000 < h - top
            < 1_000_000)
}

/// What is found at a vertex of a railway: how far it stands above the terrain
/// under it, where the vertex is owned, there is terrain, and no deck carries
/// it.
pub open spec fn rail_found(roads: Seq<RoadMesh>, class: String, v: LineVertex, zoom: u8) -> Option<Finding> {
    if v.at.owned && v.at.terrain is Some && !rides_a_deck(roads, v.at, v.height as int) {
        let ground = v.at.terrain->0;
        above(
            v.height - ground,
            2_000_000,
            Offender {
                place: v.at.place,
                zoom,
                value: (v.height - ground) as i128,
                note: Note::RailStandoff { class, height: v.height, ground },
            },
        )
    } else {
        None
    }
}

/// What is found at every vertex of every part of every at-grade railway, and of
/// no other line.
pub open spec fn rails_found(roads: Seq<RoadMesh>, lines: Seq<Line>, zoom: u8, sheets: Seq<Seq<Seq<Option<Finding>>>>) -> bool {
    &&& sheets.len() == lines.len()
    &&& forall|l: int|
        0 <= l < lines.len() ==> (#[trigger] sheets[l]).len() == if lines[l].level == 0 && lines[l].rail {
            lines[l].parts@.len()
        } else {
            0
        }
    &&& forall|l: int, p: int|
        0 <= l < lines.len() && 0 <= p < sheets[l].len() ==> (#[trigger] sheets[l][p]).len() == lines[l].parts@[p]@.len()
    &&& forall|l: int, p: int, v: int|
        0 <= l < lines.len() && 0 <= p < sheets[l].len() && 0 <= v < sheets[l][p].len() ==> #[trigger] sheets[l][p][v]
            == rail_found(roads, lines[l].class, lines[l].parts@[p]@[v], zoom)
}

/// Every vertex of every at-grade railway is measured by how far it stands off
/// the terrain, and is past the limit above two metres.
pub proof fn every_rail_vertex_is_measured(
    s: Scores,
    roads: Seq<RoadMesh>,
    lines: Seq<Line>,
    zoom: u8,
    sheets: Seq<Seq<Seq<Option<Finding>>>>,
    n: int,
)
    requires
        0 <= n <= lines.len(),
        rails_found(roads, lines, zoom, sheets),
    ensures
        rail_scored(s, roads, lines, zoom, n) == gathered_sheets(s, sheets, n),
    decreases n,
{
    if n > 0 {
        every_rail_vertex_is_measured(s, roads, lines, zoom, sheets, n - 1);
        let l = lines[n - 1];
        let rest = rail_scored(s, roads, lines, zoom, n - 1);
        assert(sheets[n - 1].len() == if l.level == 0 && l.rail {
            l.parts@.len()
        } else {
            0
        });
        if l.level == 0 && l.rail {
            lemma_rail_line(rest, roads, lines, zoom, sheets, n - 1, l.parts@.len() as int);
        }
    }
}

proof fn lemma_rail_line(
    s: Scores,
    roads: Seq<RoadMesh>,
    lines: Seq<Line>,
    zoom: u8,
    sheets: Seq<Seq<Seq<Option<Finding>>>>,
    l: int,
    n: int,
)
    requires
        0 <= l < lines.len(),
        0 <= n <= sheets[l].len(),
        rails_found(roads, lines, zoom, sheets),
    ensures
        rail_line_scored(s, roads, lines[l], zoom, n) == gathered_rows(s, sheets[l], n),
    decreases n,
{
    if n > 0 {
        lemma_rail_line(s, roads, lines, zoom, sheets, l, n - 1);
        let rest = rail_line_scored(s, roads, lines[l], zoom, n - 1);
        assert(sheets[l][n - 1].len() == lines[l].parts@[n - 1]@.len());
        lemma_rail_part(rest, roads, lines, zoom, sheets, l, n - 1, sheets[l][n - 1].len() as int);
    }
}

proof fn lemma_rail_part(
    s: Scores,
    roads: Seq<RoadMesh>,
    lines: Seq<Line>,
    zoom: u8,
    sheets: Seq<Seq<Seq<Option<Finding>>>>,
    l: int,
    p: int,
    n: int,
)
    requires
        0 <= l < lines.len(),
        0 <= p < sheets[l].len(),
        0 <= n <= sheets[l][p].len(),
        rails_found(roads, lines, zoom, sheets),
    ensures
        rail_part_scored(s, roads, lines[l].class, lines[l].parts@[p]@, zoom, n) == gathered(s, sheets[l][p], n),
    decreases n,
{
    if n > 0 {
        lemma_rail_part(s, roads, lines, zoom, sheets, l, p, n - 1);
        let v = lines[l].parts@[p]@[n - 1];
        assert(sheets[l][p][n - 1] == rail_found(roads, lines[l].class, v, zoom));
        lemma_rides(roads, v.at, v.height as int);
    }
}

proof fn lemma_rides(roads: Seq<RoadMesh>, p: Probe, h: int)
    ensures
        on_deck(roads, p, h, roads.len() as int) == rides_a_deck(roads, p, h),
{
    if on_deck(roads, p, h, roads.len() as int) {
        let k = choose|k: int|
            0 <= k < roads.len() && (#[trigger] roads[k]).deck && p.heights@[k] is Some && crate::arith::abs(
                h - p.heights@[k]->0,
            ) < 1_000_000;
        assert(roads[k].deck);
    }
    if rides_a_deck(roads, p, h) {
        let k = choose|k: int|
            0 <= k < roads.len() && (#[trigger] roads[k]).deck && (p.heights@[k] matches Some(top) && -1_000_000 < h - top
                < 1_000_000);
        assert(roads[k].deck);
    }
}

} // verus!
