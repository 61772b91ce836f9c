//! Across the ladder of zooms: does a structure keep its clearance over the
//! ground drawn under it, from one zoom to the next coarser?
//!
//! Structures carry no identity across zooms but their class and level, so a
//! structure is compared only where the parent tile holds exactly one of its
//! class and level.
use vstd::prelude::*;
use crate::arith::abs;
use crate::verify::{fresh, scored, Invariant, Metric, Note, Offender, Place, Scores, Sense, Tally};
use crate::verify::checks::Options;
use crate::verify::scene::{bump, bumped};
use crate::verify::findings::{above, gathered, gathered_rows, Finding};

verus! {

/// How far a structure's clearance may change between zooms.
pub const DRIFT_UM: i128 = 2_000_000;

/// How many coarse tiles are held decoded at once.
pub const CACHE: usize = 48;

/// A drawn road feature as the tile encodes it.
#[derive(Debug)]
pub struct Feature {
    pub class: String,
    pub level: i64,
}

/// What the two zooms draw at one point of a structure: its top and the ground
/// under it, at each.
#[derive(Clone, Copy, Debug, PartialEq, Eq, Structural)]
pub struct DriftPoint {
    pub owned: bool,
    pub place: Place,
    pub top: Option<i64>,
    pub ground: Option<i64>,
    pub coarse_top: Option<i64>,
    pub coarse_ground: Option<i64>,
}

/// The largest of the first `n` zooms, nought without any.
pub open spec fn finest(zooms: Seq<u8>, n: int) -> u8
    decreases n,
{
    if n <= 0 {
        0
    } else {
        let rest = finest(zooms, n - 1);
        if zooms[n - 1] > rest {
            zooms[n - 1]
        } else {
            rest
        }
    }
}

/// The zoom to compare with the one below it, where the archive holds both.
pub fn finest_zoom(zooms: &[u8], min_zoom: u8) -> (out: Option<u8>)
    ensures
        out == ({
            let fine = finest(zooms@, zooms@.len() as int);
            if fine == 0 || fine <= min_zoom {
                None
            } else {
                Some(fine)
            }
        }),
{
    let mut fine: u8 = 0;
    let mut i: usize = 0;
    while i < zooms.len()
        invariant
            i <= zooms@.len(),
            fine == finest(zooms@, i as int),
        decreases zooms@.len() - i,
    {
        if zooms[i] > fine {
            fine = zooms[i];
        }
        i = i + 1;
    }
    if fine == 0 || fine <= min_zoom {
        None
    } else {
        Some(fine)
    }
}

/// The tile one zoom coarser that covers a tile.
pub fn parent_of(x: u32, y: u32) -> (out: (u32, u32))
    ensures
        out.0 == x / 2,
        out.1 == y / 2,
{
    (x / 2, y / 2)
}

/// Whether the cache of coarse tiles is dropped before one more is taken in.
pub fn drops_cache(held: usize, known: bool) -> (drops: bool)
    ensures
        drops == (held > CACHE && !known),
{
    held > CACHE && !known
}

/// How many of the first `n` features of the parent could be the structure.
pub open spec fn candidates(parent: Seq<Feature>, s: Feature, n: int) -> int
    decreases n,
{
    if n <= 0 {
        0
    } else {
        candidates(parent, s, n - 1) + if parent[n - 1].level == s.level && parent[n - 1].class@ == s.class@ {
            1int
        } else {
            0
        }
    }
}

/// The first of the first `n` features that could be the structure.
pub open spec fn candidate(parent: Seq<Feature>, s: Feature, n: int) -> Option<int>
    decreases n,
{
    if n <= 0 {
        None
    } else {
        match candidate(parent, s, n - 1) {
            Some(k) => Some(k),
            None => if parent[n - 1].level == s.level && parent[n - 1].class@ == s.class@ {
                Some(n - 1)
            } else {
                None
            },
        }
    }
}

/// The feature of the parent a structure is compared with: the one candidate
/// there is.
pub open spec fn matched(parent: Seq<Feature>, s: Feature) -> Option<int> {
    let n = parent.len() as int;
    if s.level != 0 && candidates(parent, s, n) == 1 {
        candidate(parent, s, n)
    } else {
        None
    }
}

/// A count raised by another, short of what it can hold.
pub open spec fn raised(n: u64, by: int) -> u64 {
    if n + by <= u64::MAX {
        (n + by) as u64
    } else {
        u64::MAX
    }
}

/// The ambiguous candidates after the first `n` features of a tile.
pub open spec fn ambiguous_after(count: u64, fine: Seq<Feature>, parent: Seq<Feature>, n: int) -> u64
    decreases n,
{
    if n <= 0 {
        count
    } else {
        let rest = ambiguous_after(count, fine, parent, n - 1);
        let c = candidates(parent, fine[n - 1], parent.len() as int);
        if fine[n - 1].level != 0 && c != 1 {
            raised(rest, c)
        } else {
            rest
        }
    }
}

proof fn lemma_candidates(parent: Seq<Feature>, s: Feature, n: int)
    requires
        0 <= n <= parent.len(),
    ensures
        0 <= candidates(parent, s, n) <= n,
        candidate(parent, s, n) is Some <==> candidates(parent, s, n) > 0,
        candidate(parent, s, n) is Some ==> {
            let k = candidate(parent, s, n)->0;
            0 <= k < n && parent[k].level == s.level && parent[k].class@ == s.class@
        },
    decreases n,
{
    if n > 0 {
        lemma_candidates(parent, s, n - 1);
    }
}

proof fn lemma_single_candidate(parent: Seq<Feature>, s: Feature, i: int, j: int, n: int)
    requires
        0 <= i < j < n <= parent.len(),
        parent[i].level == s.level && parent[i].class@ == s.class@,
        parent[j].level == s.level && parent[j].class@ == s.class@,
    ensures
        candidates(parent, s, n) >= 2,
    decreases n,
{
    lemma_candidates(parent, s, n - 1);
    if j < n - 1 {
        lemma_single_candidate(parent, s, i, j, n - 1);
    } else {
        lemma_at_least_one(parent, s, i, n - 1);
    }
}

proof fn lemma_at_least_one(parent: Seq<Feature>, s: Feature, i: int, n: int)
    requires
        0 <= i < n <= parent.len(),
        parent[i].level == s.level && parent[i].class@ == s.class@,
    ensures
        candidates(parent, s, n) >= 1,
    decreases n,
{
    lemma_candidates(parent, s, n - 1);
    if i < n - 1 {
        lemma_at_least_one(parent, s, i, n - 1);
    }
}

/// A structure is compared only where the match is certain: the feature it is
/// matched with is of its class and level, and no other of the parent is.
pub proof fn a_match_is_certain(parent: Seq<Feature>, s: Feature)
    requires
        matched(parent, s) is Some,
    ensures
        ({
            let k = matched(parent, s)->0;
            &&& 0 <= k < parent.len()
            &&& parent[k].level == s.level
            &&& parent[k].class@ == s.class@
            &&& forall|i: int|
                0 <= i < parent.len() && i != k ==> (#[trigger] parent[i]).level != s.level || parent[i].class@
                    != s.class@
        }),
{
    let n = parent.len() as int;
    lemma_candidates(parent, s, n);
    let k = matched(parent, s)->0;
    assert forall|i: int| 0 <= i < parent.len() && i != k implies (#[trigger] parent[i]).level != s.level
        || parent[i].class@ != s.class@ by {
        if parent[i].level == s.level && parent[i].class@ == s.class@ {
            if i < k {
                lemma_single_candidate(parent, s, i, k, n);
            } else {
                lemma_single_candidate(parent, s, k, i, n);
            }
        }
    }
}

/// How far a structure's clearance drifts at a point, where both zooms draw it
/// and its ground.
pub open spec fn drift(p: DriftPoint) -> Option<int> {
    if p.owned && p.top is Some && p.ground is Some && p.coarse_top is Some && p.coarse_ground is Some {
        Some(abs((p.top->0 - p.ground->0) - (p.coarse_top->0 - p.coarse_ground->0)))
    } else {
        None
    }
}

/// A structure that moves with its ground from one zoom to the next does not
/// drift.
pub proof fn a_structure_that_keeps_its_clearance_does_not_drift(p: DriftPoint)
    requires
        drift(p) is Some,
        p.top->0 - p.coarse_top->0 == p.ground->0 - p.coarse_ground->0,
    ensures
        drift(p)->0 == 0,
{
}

pub open spec fn point_scored(s: Scores, f: Feature, p: DriftPoint, zoom: u8) -> Scores {
    match drift(p) {
        Some(d) => scored(
            s,
            d,
            if d > DRIFT_UM {
                Some(
                    Offender {
                        place: p.place,
                        zoom,
                        value: d as i128,
                        note: Note::Drift {
                            class: f.class,
                            level: f.level,
                            fine: (p.top->0 - p.ground->0) as i128,
                            coarse: (p.coarse_top->0 - p.coarse_ground->0) as i128,
                        },
                    },
                )
            } else {
                None
            },
        ),
        None => s,
    }
}

/// What the first `n` points of a structure add.
pub open spec fn structure_scored(s: Scores, f: Feature, points: Seq<DriftPoint>, zoom: u8, n: int) -> Scores
    decreases n,
{
    if n <= 0 {
        s
    } else {
        point_scored(structure_scored(s, f, points, zoom, n - 1), f, points[n - 1], zoom)
    }
}

pub open spec fn compared_after(count: u64, points: Seq<DriftPoint>, n: int) -> u64
    decreases n,
{
    if n <= 0 {
        count
    } else {
        let rest = compared_after(count, points, n - 1);
        if drift(points[n - 1]) is Some {
            bumped(rest)
        } else {
            rest
        }
    }
}

/// What the first `n` features of a tile add: each that has a twin, at its own
/// points, and no other.
pub open spec fn pairs_scored(
    s: Scores,
    fine: Seq<Feature>,
    twins: Seq<Option<usize>>,
    points: Seq<Vec<DriftPoint>>,
    zoom: u8,
    n: int,
) -> Scores
    decreases n,
{
    if n <= 0 {
        s
    } else {
        let rest = pairs_scored(s, fine, twins, points, zoom, n - 1);
        if twins[n - 1] is Some {
            structure_scored(rest, fine[n - 1], points[n - 1]@, zoom, points[n - 1]@.len() as int)
        } else {
            rest
        }
    }
}

pub open spec fn pairs_compared(
    count: u64,
    twins: Seq<Option<usize>>,
    points: Seq<Vec<DriftPoint>>,
    n: int,
) -> u64
    decreases n,
{
    if n <= 0 {
        count
    } else {
        let rest = pairs_compared(count, twins, points, n - 1);
        if twins[n - 1] is Some {
            compared_after(rest, points[n - 1]@, points[n - 1]@.len() as int)
        } else {
            rest
        }
    }
}

/// The drift check.
#[derive(Debug)]
pub struct Lod {
    pub drifts: Tally,
    pub compared: u64,
    pub ambiguous: u64,
}

impl Lod {
    pub open spec fn well_formed(&self) -> bool {
        self.drifts.well_formed()
    }

    pub fn new(opt: &Options) -> (out: Lod)
        requires
            opt.worst_k < usize::MAX,
        ensures
            out.well_formed(),
            out.drifts@ == fresh(opt.worst_k),
            out.compared == 0,
            out.ambiguous == 0,
    {
        Lod { drifts: Tally::new(Sense::HigherIsWorse, opt.worst_k), compared: 0, ambiguous: 0 }
    }

    /// Matches every feature of a tile with its parent's. Features at grade and
    /// structures without exactly one candidate stay unmatched.
    pub fn pair(&mut self, fine: &[Feature], parent: &[Feature]) -> (out: Vec<Option<usize>>)
        requires
            old(self).well_formed(),
        ensures
            final(self).well_formed(),
            final(self).drifts == old(self).drifts,
            final(self).compared == old(self).compared,
            final(self).ambiguous == ambiguous_after(old(self).ambiguous, fine@, parent@, fine@.len() as int),
            out@.len() == fine@.len(),
            forall|i: int|
                0 <= i < fine@.len() ==> match matched(parent@, fine@[i]) {
                    Some(k) => #[trigger] out@[i] is Some && out@[i]->0 == k,
                    None => out@[i] is None,
                },
    {
        let mut out: Vec<Option<usize>> = Vec::new();
        let mut i: usize = 0;
        while i < fine.len()
            invariant
                i <= fine@.len(),
                self.well_formed(),
                self.drifts == old(self).drifts,
                self.compared == old(self).compared,
                self.ambiguous == ambiguous_after(old(self).ambiguous, fine@, parent@, i as int),
                out@.len() == i,
                forall|j: int|
                    0 <= j < i ==> match matched(parent@, fine@[j]) {
                        Some(k) => #[trigger] out@[j] is Some && out@[j]->0 == k,
                        None => out@[j] is None,
                    },
            decreases fine@.len() - i,
        {
            let s: &Feature = &fine[i];
            let mut found: Option<usize> = None;
            if s.level != 0 {
                let mut count: usize = 0;
                let mut first: Option<usize> = None;
                let mut k: usize = 0;
                while k < parent.len()
                    invariant
                        k <= parent@.len(),
                        count <= k,
                        count == candidates(parent@, *s, k as int),
                        match candidate(parent@, *s, k as int) {
                            Some(c) => first is Some && first->0 == c,
                            None => first is None,
                        },
                    decreases parent@.len() - k,
                {
                    if parent[k].level == s.level && parent[k].class == s.class {
                        count = count + 1;
                        if first.is_none() {
                            first = Some(k);
                        }
                    }
                    k = k + 1;
                }
                if count == 1 {
                    found = first;
                } else if self.ambiguous as u128 + count as u128 <= u64::MAX as u128 {
                    self.ambiguous = self.ambiguous + count as u64;
                } else {
                    self.ambiguous = u64::MAX;
                }
            }
            out.push(found);
            i = i + 1;
        }
        out
    }

    /// Scores a matched structure at its points.
    pub fn score(&mut self, f: &Feature, points: &[DriftPoint], zoom: u8)
        requires
            old(self).well_formed(),
        ensures
            final(self).well_formed(),
            final(self).drifts@ == structure_scored(old(self).drifts@, *f, points@, zoom, points@.len() as int),
            final(self).compared == compared_after(old(self).compared, points@, points@.len() as int),
            final(self).ambiguous == old(self).ambiguous,
    {
        let mut i: usize = 0;
        while i < points.len()
            invariant
                i <= points@.len(),
                self.well_formed(),
                self.drifts@ == structure_scored(old(self).drifts@, *f, points@, zoom, i as int),
                self.compared == compared_after(old(self).compared, points@, i as int),
                self.ambiguous == old(self).ambiguous,
            decreases points@.len() - i,
        {
            let p: DriftPoint = points[i];
            if let (true, Some(top), Some(ground), Some(coarse_top), Some(coarse_ground)) = (
                p.owned,
                p.top,
                p.ground,
                p.coarse_top,
                p.coarse_ground,
            ) {
                self.compared = bump(self.compared);
                let fine: i128 = top as i128 - ground as i128;
                let coarse: i128 = coarse_top as i128 - coarse_ground as i128;
                let d: i128 = if fine < coarse { coarse - fine } else { fine - coarse };
                let offender: Option<Offender> = if d > DRIFT_UM {
                    Some(
                        Offender {
                            place: p.place,
                            zoom,
                            value: d,
                            note: Note::Drift { class: f.class.clone(), level: f.level, fine, coarse },
                        },
                    )
                } else {
                    None
                };
                self.drifts.record(d, offender);
            }
            i = i + 1;
        }
    }

    /// Scores a tile against its parent. `twins` is what [`Lod::pair`] matched,
    /// and `points` holds the readings of each feature.
    pub fn score_pairs(
        &mut self,
        fine: &[Feature],
        twins: &[Option<usize>],
        points: &[Vec<DriftPoint>],
        zoom: u8,
    )
        requires
            old(self).well_formed(),
            twins@.len() == fine@.len(),
            points@.len() == fine@.len(),
        ensures
            final(self).well_formed(),
            final(self).drifts@ == pairs_scored(old(self).drifts@, fine@, twins@, points@, zoom, fine@.len() as int),
            final(self).compared == pairs_compared(old(self).compared, twins@, points@, fine@.len() as int),
            final(self).ambiguous == old(self).ambiguous,
    {
        let mut i: usize = 0;
        while i < fine.len()
            invariant
                i <= fine@.len(),
                twins@.len() == fine@.len(),
                points@.len() == fine@.len(),
                self.well_formed(),
                self.drifts@ == pairs_scored(old(self).drifts@, fine@, twins@, points@, zoom, i as int),
                self.compared == pairs_compared(old(self).compared, twins@, points@, i as int),
                self.ambiguous == old(self).ambiguous,
            decreases fine@.len() - i,
        {
            if twins[i].is_some() {
                self.score(&fine[i], points[i].as_slice(), zoom);
            }
            i = i + 1;
        }
    }

    pub open spec fn reported(&self, out: Metric) -> bool {
        out.reports("lod.structure_drift"@, Invariant::I5, DRIFT_UM as int, self.compared == 0, self.drifts@)
    }

    /// The finished metric, skipped where nothing was compared.
    pub fn metric(self) -> (out: Metric)
        ensures
            self.reported(out),
    {
        Metric::close("lod.structure_drift", Invariant::I5, DRIFT_UM, self.compared == 0, self.drifts)
    }
}

/// The finest zoom is one of them, and none is finer.
pub proof fn the_finest_zoom_is_the_largest(zooms: Seq<u8>, n: int)
    requires
        0 <= n <= zooms.len(),
    ensures
        forall|i: int| 0 <= i < n ==> (#[trigger] zooms[i]) <= finest(zooms, n),
        n > 0 ==> exists|i: int| 0 <= i < n && (#[trigger] zooms[i]) == finest(zooms, n),
        n == 0 ==> finest(zooms, n) == 0,
    decreases n,
{
    if n > 0 {
        the_finest_zoom_is_the_largest(zooms, n - 1);
        if zooms[n - 1] > finest(zooms, n - 1) || n == 1 {
            assert(zooms[n - 1] == finest(zooms, n));
        }
    }
}

/// A structure that one feature of the parent, and no other, has the class and
/// level of is matched with it; nothing at grade is matched.
pub proof fn a_certain_match_is_made(parent: Seq<Feature>, s: Feature, k: int)
    requires
        0 <= k < parent.len(),
        parent[k].level == s.level,
        parent[k].class@ == s.class@,
        forall|i: int|
            0 <= i < parent.len() && i != k ==> (#[trigger] parent[i]).level != s.level || parent[i].class@ != s.class@,
    ensures
        s.level != 0 ==> matched(parent, s) == Some(k),
        s.level == 0 ==> matched(parent, s) is None,
{
    lemma_only_candidate(parent, s, k, parent.len() as int);
}

proof fn lemma_only_candidate(parent: Seq<Feature>, s: Feature, k: int, n: int)
    requires
        0 <= k < parent.len(),
        0 <= n <= parent.len(),
        parent[k].level == s.level,
        parent[k].class@ == s.class@,
        forall|i: int|
            0 <= i < parent.len() && i != k ==> (#[trigger] parent[i]).level != s.level || parent[i].class@ != s.class@,
    ensures
        candidates(parent, s, n) == if k < n {
            1int
        } else {
            0
        },
        candidate(parent, s, n) == if k < n {
            Some(k)
        } else {
            None
        },
    decreases n,
{
    if n > 0 {
        lemma_only_candidate(parent, s, k, n - 1);
        if n - 1 != k {
            assert(parent[n - 1].level != s.level || parent[n - 1].class@ != s.class@);
        }
    }
}

/// What is found at a point of a structure both zooms draw, over ground both draw,
/// where the point is owned: how far its height over the ground differs from one
/// to the other, past the limit above two metres.
pub open spec fn drift_found(f: Feature, p: DriftPoint, zoom: u8) -> Option<Finding> {
    if p.owned && p.top is Some && p.ground is Some && p.coarse_top is Some && p.coarse_ground is Some {
        let fine = p.top->0 - p.ground->0;
        let coarse = p.coarse_top->0 - p.coarse_ground->0;
        let d = if fine < coarse {
            coarse - fine
        } else {
            fine - coarse
        };
        above(
            d,
            2_000_000,
            Offender {
                place: p.place,
                zoom,
                value: d as i128,
                note: Note::Drift { class: f.class, level: f.level, fine: fine as i128, coarse: coarse as i128 },
            },
        )
    } else {
        None
    }
}

pub open spec fn drifts_found(
    fine: Seq<Feature>,
    twins: Seq<Option<usize>>,
    points: Seq<Vec<DriftPoint>>,
    zoom: u8,
    rows: Seq<Seq<Option<Finding>>>,
) -> bool {
    &&& rows.len() == fine.len()
    &&& forall|i: int|
        0 <= i < fine.len() ==> (#[trigger] rows[i]).len() == if twins[i] is Some {
            points[i]@.len()
        } else {
            0
        }
    &&& forall|i: int, k: int|
        0 <= i < fine.len() && 0 <= k < rows[i].len() ==> #[trigger] rows[i][k] == drift_found(fine[i], points[i]@[k], zoom)
}

/// Every point of every matched structure is measured, and no other.
pub proof fn every_matched_structure_is_measured(
    s: Scores,
    fine: Seq<Feature>,
    twins: Seq<Option<usize>>,
    points: Seq<Vec<DriftPoint>>,
    zoom: u8,
    rows: Seq<Seq<Option<Finding>>>,
    n: int,
)
    requires
        0 <= n <= fine.len(),
        drifts_found(fine, twins, points, zoom, rows),
    ensures
        pairs_scored(s, fine, twins, points, zoom, n) == gathered_rows(s, rows, n),
    decreases n,
{
    if n > 0 {
        every_matched_structure_is_measured(s, fine, twins, points, zoom, rows, n - 1);
        let i = n - 1;
        assert(rows[i].len() == if twins[i] is Some {
            points[i]@.len()
        } else {
            0
        });
        if twins[i] is Some {
            lemma_drifts_found(
                pairs_scored(s, fine, twins, points, zoom, n - 1),
                fine,
                twins,
                points,
                zoom,
                rows,
                i,
                rows[i].len() as int,
            );
        }
    }
}

proof fn lemma_drifts_found(
    s: Scores,
    fine: Seq<Feature>,
    twins: Seq<Option<usize>>,
    points: Seq<Vec<DriftPoint>>,
    zoom: u8,
    rows: Seq<Seq<Option<Finding>>>,
    i: int,
    n: int,
)
    requires
        0 <= i < fine.len(),
        0 <= n <= rows[i].len(),
        drifts_found(fine, twins, points, zoom, rows),
    ensures
        structure_scored(s, fine[i], points[i]@, zoom, n) == gathered(s, rows[i], n),
    decreases n,
{
    if n > 0 {
        lemma_drifts_found(s, fine, twins, points, zoom, rows, i, n - 1);
        assert(rows[i][n - 1] == drift_found(fine[i], points[i]@[n - 1], zoom));
    }
}

/// The points compared are those both zooms draw, each once.
pub proof fn every_point_compared_is_counted(count: u64, points: Seq<DriftPoint>, n: int, ones: Seq<int>)
    requires
        0 <= n <= points.len() == ones.len(),
        count + points.len() <= u64::MAX,
        forall|i: int|
            0 <= i < points.len() ==> #[trigger] ones[i] == if points[i].owned && points[i].top is Some && points[i].ground is Some
                && points[i].coarse_top is Some && points[i].coarse_ground is Some {
                1int
            } else {
                0
            },
    ensures
        compared_after(count, points, n) == count + crate::arith::total(ones.take(n)),
        0 <= crate::arith::total(ones.take(n)) <= n,
    decreases n,
{
    if n > 0 {
        every_point_compared_is_counted(count, points, n - 1, ones);
        assert(ones.take(n).drop_last() =~= ones.take(n - 1));
        assert(ones.take(n).last() == ones[n - 1]);
    }
}

} // verus!
