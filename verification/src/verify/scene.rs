//! A tile as the checks see it: its drawn road meshes, and what the meshes
//! answer at the plan points a check asks about.
use vstd::prelude::*;
use crate::text::{ends_with, has_suffix};
use crate::verify::Place;

verus! {

/// One drawn road feature.
#[derive(Debug)]
pub struct RoadMesh {
    pub class: String,
    /// Grade level ordinal: 0 at grade, positive elevated, negative buried.
    pub level: i64,
    /// The band a structure's top continues, empty where it names none.
    pub band: String,
    /// Ordering ordinal of stacked surfaces.
    pub sheet: Option<i64>,
    /// At-grade surface band.
    pub pavement: bool,
    /// Rim edging a surface band.
    pub rim: bool,
    /// Casing edging a surface band, the rest of what it draws at grade.
    pub casing: bool,
    /// Elevated structure.
    pub deck: bool,
    /// Buried structure.
    pub bore: bool,
    /// Elevated structure fitted to the ground rather than solved.
    pub fitted: bool,
    /// Whether the class names a railway.
    pub rail: bool,
}

/// A plan point and what the drawn meshes answer there. The road answers are
/// in the order of the tile's road meshes.
#[derive(Debug)]
pub struct Probe {
    /// Whether the point lies in the tile proper.
    pub owned: bool,
    pub place: Place,
    /// Height of the drawn terrain.
    pub terrain: Option<i64>,
    /// Height of each road mesh covering the point.
    pub heights: Vec<Option<i64>>,
    /// Lowest and highest answer of each road mesh covering the point.
    pub ranges: Vec<Option<(i64, i64)>>,
    /// Vertical span of each road mesh standing near the point.
    pub spans: Vec<Option<(i64, i64)>>,
}

impl Probe {
    /// One answer per road mesh.
    pub open spec fn covers(&self, roads: Seq<RoadMesh>) -> bool {
        &&& self.heights@.len() == roads.len()
        &&& self.ranges@.len() == roads.len()
        &&& self.spans@.len() == roads.len()
    }
}

/// How far a wall's vertical span may fall short of a step at either end and
/// still close it.
pub const APRON_SLOP_UM: i128 = 500_000;

/// Whether one of the first `n` road meshes is an apron spanning `lo` to `hi`.
pub open spec fn apron_spanning(roads: Seq<RoadMesh>, p: Probe, lo: int, hi: int, n: int) -> bool {
    exists|k: int|
        0 <= k < n && {
            &&& ends_with((#[trigger] roads[k]).class@, "_apron"@)
            &&& p.spans@[k] is Some
            &&& (p.spans@[k]->0).1 >= hi - APRON_SLOP_UM
            &&& (p.spans@[k]->0).0 <= lo + APRON_SLOP_UM
        }
}

/// Whether a drawn apron wall spans the vertical gap from `lo` to `hi`. Any
/// apron counts: the wall a band stands at the foot of is as often another
/// feature's as its own.
pub fn apron_spans(roads: &[RoadMesh], p: &Probe, lo: i64, hi: i64) -> (spans: bool)
    requires
        p.covers(roads@),
    ensures
        spans == apron_spanning(roads@, *p, lo as int, hi as int, roads@.len() as int),
{
    let mut k: usize = 0;
    while k < roads.len()
        invariant
            k <= roads@.len(),
            p.covers(roads@),
            !apron_spanning(roads@, *p, lo as int, hi as int, k as int),
        decreases roads@.len() - k,
    {
        if has_suffix(&roads[k].class, "_apron") {
            if let Some((low, high)) = p.spans[k] {
                if high as i128 >= hi as i128 - APRON_SLOP_UM && low as i128 <= lo as i128 + APRON_SLOP_UM {
                    assert(ends_with(roads@[k as int].class@, "_apron"@));
                    return true;
                }
            }
        }
        k = k + 1;
    }
    false
}

/// The first answer among the first `n` road meshes that is at-grade pavement
/// or its rim.
pub open spec fn paved_height(roads: Seq<RoadMesh>, p: Probe, n: int) -> Option<i64>
    decreases n,
{
    if n <= 0 {
        None
    } else {
        match paved_height(roads, p, n - 1) {
            Some(h) => Some(h),
            None => if roads[n - 1].pavement || roads[n - 1].rim {
                p.heights@[n - 1]
            } else {
                None
            },
        }
    }
}

/// The at-grade asphalt over a point, interior or rim.
pub fn paved_at(roads: &[RoadMesh], p: &Probe) -> (h: Option<i64>)
    requires
        p.covers(roads@),
    ensures
        h == paved_height(roads@, *p, roads@.len() as int),
{
    let mut out: Option<i64> = None;
    let mut k: usize = 0;
    while k < roads.len()
        invariant
            k <= roads@.len(),
            p.covers(roads@),
            out == paved_height(roads@, *p, k as int),
        decreases roads@.len() - k,
    {
        if out.is_none() && (roads[k].pavement || roads[k].rim) {
            out = p.heights[k];
        }
        k = k + 1;
    }
    out
}

/// Whether some road mesh is at-grade pavement or its rim.
pub open spec fn any_paved(roads: Seq<RoadMesh>) -> bool {
    exists|k: int| 0 <= k < roads.len() && ((#[trigger] roads[k]).pavement || roads[k].rim)
}

/// Whether a tile draws any at-grade asphalt.
pub fn draws_asphalt(roads: &[RoadMesh]) -> (yes: bool)
    ensures
        yes == any_paved(roads@),
{
    let mut k: usize = 0;
    while k < roads.len()
        invariant
            k <= roads@.len(),
            forall|i: int| 0 <= i < k ==> !((#[trigger] roads@[i]).pavement || roads@[i].rim),
        decreases roads@.len() - k,
    {
        if roads[k].pavement || roads[k].rim {
            assert(roads@[k as int].pavement || roads@[k as int].rim);
            return true;
        }
        k = k + 1;
    }
    false
}

/// The surface mesh `i`, whose top is at `own`, stands over: among the first
/// `n` meshes of `kept`, the one with the highest top at or under it, the
/// earliest on a tie.
pub open spec fn below_of(p: Probe, kept: Seq<bool>, i: int, own: int, n: int) -> Option<int>
    decreases n,
{
    if n <= 0 {
        None
    } else {
        let best = below_of(p, kept, i, own, n - 1);
        let k = n - 1;
        if k != i && kept[k] && p.ranges@[k] is Some && (p.ranges@[k]->0).1 <= own && (best is None || (
        p.ranges@[k]->0).1 > (p.ranges@[best->0]->0).1) {
            Some(k)
        } else {
            best
        }
    }
}

/// What `below_of` finds is the highest kept answer at or under the top.
pub proof fn lemma_below_of(p: Probe, kept: Seq<bool>, i: int, own: int, n: int)
    ensures
        match below_of(p, kept, i, own, n) {
            Some(b) => {
                &&& 0 <= b < n
                &&& b != i
                &&& kept[b]
                &&& p.ranges@[b] is Some
                &&& (p.ranges@[b]->0).1 <= own
                &&& forall|k: int|
                    0 <= k < n && k != i && kept[k] && (#[trigger] p.ranges@[k]) is Some && (p.ranges@[k]->0).1 <= own
                        ==> (p.ranges@[k]->0).1 <= (p.ranges@[b]->0).1
            },
            None => forall|k: int|
                0 <= k < n && k != i && kept[k] && (#[trigger] p.ranges@[k]) is Some ==> (p.ranges@[k]->0).1 > own,
        },
    decreases n,
{
    if n > 0 {
        lemma_below_of(p, kept, i, own, n - 1);
    }
}

/// The mesh of `kept` that mesh `i` stands over, and its top.
pub fn find_below(p: &Probe, kept: &Vec<bool>, i: usize, own: i64) -> (out: Option<(usize, i64)>)
    requires
        p.ranges@.len() == kept@.len(),
    ensures
        match below_of(*p, kept@, i as int, own as int, kept@.len() as int) {
            Some(b) => out is Some && (out->0).0 == b && b < kept@.len() && (out->0).1 == (p.ranges@[b]->0).1,
            None => out is None,
        },
{
    let mut out: Option<(usize, i64)> = None;
    let mut k: usize = 0;
    while k < kept.len()
        invariant
            k <= kept@.len(),
            p.ranges@.len() == kept@.len(),
            match below_of(*p, kept@, i as int, own as int, k as int) {
                Some(b) => out is Some && (out->0).0 == b && b < k && (out->0).1 == (p.ranges@[b]->0).1,
                None => out is None,
            },
        decreases kept@.len() - k,
    {
        if k != i && kept[k] {
            if let Some((_, top)) = p.ranges[k] {
                let higher: bool = match out {
                    None => true,
                    Some((_, best)) => top > best,
                };
                if top <= own && higher {
                    out = Some((k, top));
                }
            }
        }
        k = k + 1;
    }
    out
}

/// One more, short of what the counter can hold.
pub open spec fn bumped(n: u64) -> u64 {
    if n < u64::MAX {
        (n + 1) as u64
    } else {
        n
    }
}

/// Counts one more.
pub fn bump(n: u64) -> (out: u64)
    ensures
        out == bumped(n),
{
    if n < u64::MAX {
        n + 1
    } else {
        n
    }
}

/// At a point the first at-grade pavement or rim over it answers, in the order
/// of the tile's meshes; where none is over it nothing does.
pub proof fn the_first_pavement_over_a_point_answers(roads: Seq<RoadMesh>, p: Probe, n: int, k: int)
    requires
        0 <= k,
        0 <= n,
        forall|j: int| 0 <= j < k && j < n ==> !((#[trigger] roads[j]).pavement || roads[j].rim) || p.heights@[j] is None,
        k < n ==> (roads[k].pavement || roads[k].rim) && p.heights@[k] is Some,
    ensures
        paved_height(roads, p, n) == if k < n {
            p.heights@[k]
        } else {
            None
        },
    decreases n,
{
    if n > 0 {
        the_first_pavement_over_a_point_answers(roads, p, n - 1, k);
        if n - 1 < k {
            assert(!(roads[n - 1].pavement || roads[n - 1].rim) || p.heights@[n - 1] is None);
        }
    }
}

/// A step is closed where a mesh named an apron stands over it, to within half a
/// metre at either end.
pub proof fn an_apron_closes_the_step_it_stands_over(roads: Seq<RoadMesh>, p: Probe, lo: int, hi: int)
    ensures
        apron_spanning(roads, p, lo, hi, roads.len() as int) <==> exists|k: int|
            {
                &&& 0 <= k < roads.len()
                &&& ends_with((#[trigger] roads[k]).class@, "_apron"@)
                &&& p.spans@[k] matches Some(span) && span.1 + 500_000 >= hi && span.0 - 500_000 <= lo
            },
{
    if apron_spanning(roads, p, lo, hi, roads.len() as int) {
        let k = choose|k: int|
            0 <= k < roads.len() && {
                &&& ends_with((#[trigger] roads[k]).class@, "_apron"@)
                &&& p.spans@[k] is Some
                &&& (p.spans@[k]->0).1 >= hi - APRON_SLOP_UM
                &&& (p.spans@[k]->0).0 <= lo + APRON_SLOP_UM
            };
        assert(ends_with(roads[k].class@, "_apron"@));
    }
    if exists|k: int|
        {
            &&& 0 <= k < roads.len()
            &&& ends_with((#[trigger] roads[k]).class@, "_apron"@)
            &&& p.spans@[k] matches Some(span) && span.1 + 500_000 >= hi && span.0 - 500_000 <= lo
        } {
        let k = choose|k: int|
            {
                &&& 0 <= k < roads.len()
                &&& ends_with((#[trigger] roads[k]).class@, "_apron"@)
                &&& p.spans@[k] matches Some(span) && span.1 + 500_000 >= hi && span.0 - 500_000 <= lo
            };
        assert(ends_with(roads[k].class@, "_apron"@));
    }
}

/// Of the kept meshes that stand no higher, the first of the highest is below.
pub proof fn the_first_of_the_highest_is_below(p: Probe, kept: Seq<bool>, i: int, own: int, n: int, k: int)
    requires
        0 <= k < n,
        stands_below(p, kept, i, own, k),
        forall|j: int|
            0 <= j < k && #[trigger] stands_below(p, kept, i, own, j) ==> (p.ranges@[j]->0).1 < (p.ranges@[k]->0).1,
        forall|j: int|
            k < j < n && #[trigger] stands_below(p, kept, i, own, j) ==> (p.ranges@[j]->0).1 <= (p.ranges@[k]->0).1,
    ensures
        below_of(p, kept, i, own, n) == Some(k),
    decreases n,
{
    if k < n - 1 {
        the_first_of_the_highest_is_below(p, kept, i, own, n - 1, k);
        assert(stands_below(p, kept, i, own, n - 1) ==> (p.ranges@[n - 1]->0).1 <= (p.ranges@[k]->0).1);
    } else {
        lemma_lower_before(p, kept, i, own, n - 1, (p.ranges@[k]->0).1 as int);
    }
}

/// Whether a kept mesh other than `i` stands at a point, no higher than `own`.
pub open spec fn stands_below(p: Probe, kept: Seq<bool>, i: int, own: int, k: int) -> bool {
    k != i && kept[k] && p.ranges@[k] is Some && (p.ranges@[k]->0).1 <= own
}

proof fn lemma_lower_before(p: Probe, kept: Seq<bool>, i: int, own: int, n: int, top: int)
    requires
        0 <= n,
        forall|j: int| 0 <= j < n && #[trigger] stands_below(p, kept, i, own, j) ==> (p.ranges@[j]->0).1 < top,
    ensures
        below_of(p, kept, i, own, n) matches Some(b) ==> 0 <= b < n && (p.ranges@[b]->0).1 < top,
    decreases n,
{
    if n > 0 {
        lemma_lower_before(p, kept, i, own, n - 1, top);
        assert(stands_below(p, kept, i, own, n - 1) ==> (p.ranges@[n - 1]->0).1 < top);
    }
}

} // verus!
