//! What the abutment check finds, end by end.
use vstd::prelude::*;

use crate::verify::checks::abutment::{
    any_solid, bare_from, bare_of, carried, counts, end_held, ends_held, is_solid, may_pair, partner, partner_of,
    solid_carries, End, Facing, Held,
};
use crate::verify::findings::{above, gathered, Finding};
use crate::verify::scene::{any_paved, paved_height, Probe, RoadMesh};
use crate::verify::{Note, Offender};

verus! {

/// Whether a solved structure carries an end: a deck within a metre of its top,
/// or a bore within a metre of its floor and the deck's thickness.
pub open spec fn is_carried(roads: Seq<RoadMesh>, e: End, thickness: int) -> bool {
    exists|k: int|
        {
            &&& 0 <= k < roads.len()
            &&& !(#[trigger] roads[k]).fitted
            &&& roads[k].deck || roads[k].bore
            &&& e.at.ranges@[k] matches Some(r) && ({
                let on = if roads[k].bore {
                    r.0 + thickness
                } else {
                    r.1 as int
                };
                -1_000_000 <= e.height - on <= 1_000_000
            })
        }
}

/// An end is carried by a solved structure it stands on.
pub proof fn an_end_is_carried_by_what_it_stands_on(roads: Seq<RoadMesh>, e: End, thickness: int)
    ensures
        carried(roads, e, thickness) == is_carried(roads, e, thickness),
{
    if carried(roads, e, thickness) {
        let k = choose|k: int|
            0 <= k < roads.len() && solid_carries(#[trigger] roads[k], e.at.ranges@[k], e.height as int, thickness);
        assert(!roads[k].fitted);
    }
    if is_carried(roads, e, thickness) {
        let k = choose|k: int|
            {
                &&& 0 <= k < roads.len()
                &&& !(#[trigger] roads[k]).fitted
                &&& roads[k].deck || roads[k].bore
                &&& e.at.ranges@[k] matches Some(r) && ({
                    let on = if roads[k].bore {
                        r.0 + thickness
                    } else {
                        r.1 as int
                    };
                    -1_000_000 <= e.height - on <= 1_000_000
                })
            };
        assert(solid_carries(roads[k], e.at.ranges@[k], e.height as int, thickness));
    }
}

/// An end may be paired with another of its class that draws a band, no further
/// than twelve metres away, turned by no more than six tenths of a radian.
pub proof fn an_end_pairs_with_one_that_faces_it(ends: Seq<End>, i: int, f: Facing)
    ensures
        may_pair(ends, i, f) <==> {
            let g = ends[f.end as int];
            &&& f.end != i
            &&& g.paves && g.class@ != "marking"@
            &&& g.class@ == ends[i].class@
            &&& f.distance <= 12_000_000
            &&& f.turn <= 600_000
        },
{
}

/// The bare ground before the asphalt is a quarter metre for every step up to the
/// first that is paved, where every step up to it is owned; there is none where
/// the march leaves the tile first, or the asphalt is more than a hundred and
/// twenty steps away.
pub proof fn bare_ground_is_what_is_before_the_asphalt(roads: Seq<RoadMesh>, approach: Seq<Probe>, k: int, m: int)
    requires
        0 <= k <= m,
        forall|j: int|
            k <= j < m && j < approach.len() ==> (#[trigger] approach[j]).owned && paved_height(
                roads,
                approach[j],
                roads.len() as int,
            ) is None,
    ensures
        m <= 120 && m < approach.len() && approach[m].owned && paved_height(roads, approach[m], roads.len() as int) is Some
            ==> bare_from(roads, approach, k) == Some(250_000 * m),
        m > 120 || m >= approach.len() || !approach[m].owned ==> bare_from(roads, approach, k) is None,
    decreases m - k,
{
    if k < m && k < approach.len() && k <= 120 {
        assert(approach[k].owned);
        bare_ground_is_what_is_before_the_asphalt(roads, approach, k + 1, m);
    }
}

/// Bare ground is asked of the approach alone, on a tile that draws asphalt.
pub proof fn bare_ground_is_asked_of_the_approach(roads: Seq<RoadMesh>, g: End, thickness: int)
    ensures
        !any_paved(roads) || carried(roads, g, thickness) ==> bare_of(roads, g, thickness) is None,
        any_paved(roads) && !carried(roads, g, thickness) ==> bare_of(roads, g, thickness) == bare_from(
            roads,
            g.approach@,
            0,
        ),
{
}

/// Whether a pair is measured from an end: a carried end of a road's own stroke
/// that the tile owns, that has a partner, and whose partner is not carried too
/// and numbered lower.
pub open spec fn is_measured(roads: Seq<RoadMesh>, ends: Seq<End>, i: int, thickness: int) -> bool {
    let s = ends[i];
    &&& s.class@ != "marking"@ && s.paves
    &&& carried(roads, s, thickness)
    &&& s.at.owned
    &&& partner(ends, i) matches Some(f) && !(carried(roads, ends[f.end as int], thickness) && f.end < i)
}

/// What is found at every end a pair is measured from: how far its partner is in
/// plan, how far in height, and how much bare ground lies before it; past the
/// limit above five centimetres.
pub open spec fn ends_found(
    roads: Seq<RoadMesh>,
    ends: Seq<End>,
    thickness: int,
    zoom: u8,
    plan: Seq<Option<Finding>>,
    step: Seq<Option<Finding>>,
    bare: Seq<Option<Finding>>,
) -> bool {
    &&& plan.len() == ends.len()
    &&& step.len() == ends.len()
    &&& bare.len() == ends.len()
    &&& forall|i: int|
        0 <= i < ends.len() ==> #[trigger] plan[i] == ({
            let s = ends[i];
            let f = partner(ends, i)->0;
            if is_measured(roads, ends, i, thickness) {
                above(
                    f.distance as int,
                    50_000,
                    Offender {
                        place: s.at.place,
                        zoom,
                        value: f.distance as i128,
                        note: Note::AbutmentPlan { class: s.class, step: gap(s, ends[f.end as int]) as u64 },
                    },
                )
            } else {
                None
            }
        })
    &&& forall|i: int|
        0 <= i < ends.len() ==> #[trigger] step[i] == ({
            let s = ends[i];
            let f = partner(ends, i)->0;
            let g = ends[f.end as int];
            if is_measured(roads, ends, i, thickness) {
                above(
                    gap(s, g),
                    50_000,
                    Offender {
                        place: s.at.place,
                        zoom,
                        value: gap(s, g) as i128,
                        note: Note::AbutmentStep { class: s.class, above: s.height > g.height, plan: f.distance },
                    },
                )
            } else {
                None
            }
        })
    &&& forall|i: int|
        0 <= i < ends.len() ==> #[trigger] bare[i] == ({
            let s = ends[i];
            let g = ends[partner(ends, i)->0.end as int];
            let b = bare_of(roads, g, thickness);
            if is_measured(roads, ends, i, thickness) && b is Some {
                above(
                    b->0,
                    50_000,
                    Offender {
                        place: g.at.place,
                        zoom,
                        value: b->0 as i128,
                        note: Note::AbutmentBare { class: s.class },
                    },
                )
            } else {
                None
            }
        })
}

/// How far apart two ends are in height.
pub open spec fn gap(s: End, g: End) -> int {
    if s.height < g.height {
        g.height - s.height
    } else {
        s.height - g.height
    }
}

/// Every pair is measured, in plan, in height and over bare ground.
pub proof fn every_pair_is_measured(
    h: Held,
    roads: Seq<RoadMesh>,
    ends: Seq<End>,
    thickness: int,
    zoom: u8,
    plan: Seq<Option<Finding>>,
    step: Seq<Option<Finding>>,
    bare: Seq<Option<Finding>>,
    n: int,
)
    requires
        0 <= n <= ends.len(),
        ends_found(roads, ends, thickness, zoom, plan, step, bare),
    ensures
        ends_held(h, roads, ends, thickness, zoom, n).plan == gathered(h.plan, plan, n),
        ends_held(h, roads, ends, thickness, zoom, n).step == gathered(h.step, step, n),
        ends_held(h, roads, ends, thickness, zoom, n).bare == gathered(h.bare, bare, n),
    decreases n,
{
    if n > 0 {
        every_pair_is_measured(h, roads, ends, thickness, zoom, plan, step, bare, n - 1);
        let i = n - 1;
        let (a, b, c) = (plan[i], step[i], bare[i]);
        assert(counts(ends[i]) == (ends[i].class@ != "marking"@ && ends[i].paves));
    }
}

/// Every carried end of a road's own stroke that the tile owns is counted once:
/// as paired, as the second half of a pair, or as unpaired.
pub proof fn every_carried_end_is_counted_once(h: Held, roads: Seq<RoadMesh>, ends: Seq<End>, i: int, thickness: int, zoom: u8)
    requires
        h.paired < u64::MAX && h.second_half < u64::MAX && h.unpaired < u64::MAX,
    ensures
        ({
            let k = end_held(h, roads, ends, i, thickness, zoom);
            let s = ends[i];
            let asked = s.class@ != "marking"@ && s.paves && carried(roads, s, thickness) && s.at.owned;
            &&& k.paired == h.paired + if is_measured(roads, ends, i, thickness) {
                1int
            } else {
                0
            }
            &&& k.unpaired == h.unpaired + if asked && partner(ends, i) is None {
                1int
            } else {
                0
            }
            &&& k.second_half == h.second_half + if asked && partner(ends, i) is Some && !is_measured(
                roads,
                ends,
                i,
                thickness,
            ) {
                1int
            } else {
                0
            }
        }),
{
}

/// A tile has a solved structure where a deck or a bore of it is not fitted to
/// the ground.
pub proof fn a_solved_structure_is_not_fitted(roads: Seq<RoadMesh>)
    ensures
        any_solid(roads) <==> exists|k: int|
            0 <= k < roads.len() && !(#[trigger] roads[k]).fitted && (roads[k].deck || roads[k].bore),
{
    if any_solid(roads) {
        let k = choose|k: int| 0 <= k < roads.len() && is_solid(#[trigger] roads[k]);
        assert(!roads[k].fitted);
    }
    if exists|k: int| 0 <= k < roads.len() && !(#[trigger] roads[k]).fitted && (roads[k].deck || roads[k].bore) {
        let k = choose|k: int|
            0 <= k < roads.len() && !(#[trigger] roads[k]).fitted && (roads[k].deck || roads[k].bore);
        assert(is_solid(roads[k]));
    }
}

/// The partner of an end is the nearest it may pair with, and the first of those
/// that are.
pub proof fn the_first_of_the_nearest_is_the_partner(ends: Seq<End>, i: int, n: int, k: int)
    requires
        0 <= k < n <= ends[i].facing@.len(),
        may_pair(ends, i, ends[i].facing@[k]),
        forall|j: int|
            0 <= j < k && may_pair(ends, i, #[trigger] ends[i].facing@[j]) ==> ends[i].facing@[j].distance
                > ends[i].facing@[k].distance,
        forall|j: int|
            k < j < n && may_pair(ends, i, #[trigger] ends[i].facing@[j]) ==> ends[i].facing@[j].distance
                >= ends[i].facing@[k].distance,
    ensures
        partner_of(ends, i, n) == Some(ends[i].facing@[k]),
    decreases n,
{
    let last = ends[i].facing@[n - 1];
    if k < n - 1 {
        the_first_of_the_nearest_is_the_partner(ends, i, n - 1, k);
    } else {
        lemma_further_before(ends, i, n - 1, last.distance as int);
    }
}

proof fn lemma_further_before(ends: Seq<End>, i: int, n: int, d: int)
    requires
        0 <= n <= ends[i].facing@.len(),
        forall|j: int| 0 <= j < n && may_pair(ends, i, #[trigger] ends[i].facing@[j]) ==> ends[i].facing@[j].distance > d,
    ensures
        partner_of(ends, i, n) matches Some(f) ==> f.distance > d,
    decreases n,
{
    if n > 0 {
        lemma_further_before(ends, i, n - 1, d);
        let f = ends[i].facing@[n - 1];
    }
}

} // verus!
