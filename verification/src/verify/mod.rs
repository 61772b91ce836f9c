//! Scoring a finished archive: what a check collects and what it reports.
//!
//! Heights and lengths are micrometres. A check never reads a mesh itself: it
//! is handed what the drawn meshes answer at the points it asks about, and
//! decides what that means.
use vstd::prelude::*;
pub use crate::project::Place;

pub mod checks;
pub mod findings;
pub mod march;
pub mod scene;
pub mod silhouette;

verus! {

/// Which way a metric gets worse.
#[derive(Clone, Copy, Debug, PartialEq, Eq, Structural)]
pub enum Sense {
    HigherIsWorse,
    LowerIsWorse,
}

/// The drawing invariant a metric measures.
#[derive(Clone, Copy, Debug, PartialEq, Eq, Structural)]
pub enum Invariant {
    I1,
    I2,
    I3,
    I4,
    I5,
    I6,
    I7,
    I8,
    I9,
}

/// What is wrong at an offender. Heights and lengths are micrometres, slopes
/// are millionths.
#[derive(Debug)]
pub enum Note {
    /// Drawn ground outside a building's seat band.
    BuildingSeat { daylight: bool, relief: i64 },
    /// A railway standing off the ground.
    RailStandoff { class: String, height: i64, ground: i64 },
    /// A footway deck sunk below the deck carrying it.
    CarriedDeck { class: String, carrier: String, hits: u64, samples: u64, join: u128 },
    /// A footbridge end below the wall beside it.
    DeckSeat { class: String, low: i64, high: i64 },
    /// A kerb standing off the ground a metre outside it.
    KerbLip { kerb: i64, ground: i64 },
    /// A step at the hole's rim with nothing spanning it.
    KerbUnwalled { road: i64, rim: i64 },
    /// Bare ground between an abutment and its band.
    AbutmentBare { class: String },
    /// A centreline breaking in plan at a structure end.
    AbutmentPlan { class: String, step: u64 },
    /// A road height stepping at a structure end.
    AbutmentStep { class: String, above: bool, plan: u64 },
    /// A kerb line drawn across a band where a deck takes over.
    HandoverKerb { deck: String, ballast: bool },
    /// Ground drawn between a band and the deck that continues it.
    HandoverBare { deck: String, ballast: bool },
    /// A surface stepping where a deck takes over.
    HandoverStep { deck: String, ballast: bool, above: bool, bare: i64 },
    /// A deck under the at-grade asphalt.
    DeckOrder { class: String, level: i64, top: i64, asphalt: i64 },
    /// A soffit under the drawn ground.
    DeckBuried { class: String, level: i64, soffit: i64, ground: i64 },
    /// A bore roof out of the ground.
    BoreExposed { class: String, level: i64, roof: i64, ground: i64 },
    /// Two at-grade bands stacked.
    GradeStack { upper: String, own: i64, lower: String, below: i64 },
    /// A vertical step no face spans.
    OpenStep { upper: String, own: i64, lower: String, below: i64 },
    /// Paint clear of any carriageway.
    MarkingOffside { width: i64 },
    /// An edge line off its own kerb.
    EdgeLineInset { near: i64 },
    /// A stroke under the drawn ground.
    StrokeBuried { class: String, level: i64 },
    /// A stroke over the band that replaced it.
    StrokeDoubled { class: String },
    /// Bare kerb between two pavements.
    KerbGap { stations: u64 },
    /// A pavement edge wandering in and out.
    WidthWander { stations: u64, here: i64, there: i64 },
    /// A surface with two heights at one border point.
    Split { sheet: Option<i64>, low: i64, high: i64 },
    /// Neighbouring tiles disagreeing at a border point.
    SeamStep { tiles: u64, x: i64, y: i64 },
    /// A steep terrain face.
    TerrainFace { rise: i64 },
    /// A steep interior asphalt face.
    RoadFace { rise: i64 },
    /// Terrain alternating about its neighbours.
    Tearing { up: i64, down: i64 },
    /// A structure's clearance changing between zooms.
    Drift { class: String, level: i64, fine: i128, coarse: i128 },
}

/// One place where a metric is past its threshold.
#[derive(Debug)]
pub struct Offender {
    pub place: Place,
    pub zoom: u8,
    pub value: i128,
    pub note: Note,
}

/// Whether `a` is worse than `b`.
pub open spec fn worse(sense: Sense, a: int, b: int) -> bool {
    match sense {
        Sense::HigherIsWorse => a > b,
        Sense::LowerIsWorse => a < b,
    }
}

/// What a metric has collected: every sample in order, and the worst offenders
/// kept, worst first.
pub struct Scores {
    pub sense: Sense,
    pub keep: int,
    pub samples: Seq<int>,
    pub worst: Seq<Offender>,
}

/// Where an offender of value `v` goes among the first `n` kept: behind every
/// one at least as bad.
pub open spec fn rank_of(sense: Sense, list: Seq<Offender>, v: int, n: int) -> int
    decreases n,
{
    if n <= 0 {
        0
    } else {
        let before = rank_of(sense, list, v, n - 1);
        if before == n - 1 && !worse(sense, v, list[n - 1].value as int) {
            n
        } else {
            before
        }
    }
}

/// The kept offenders after one more is offered.
pub open spec fn offered(sense: Sense, keep: int, list: Seq<Offender>, o: Offender) -> Seq<Offender> {
    let longer = list.insert(rank_of(sense, list, o.value as int, list.len() as int), o);
    if longer.len() > keep {
        longer.take(keep)
    } else {
        longer
    }
}

/// The scores after one sample, with an offender when it is past the
/// threshold.
pub open spec fn scored(s: Scores, sample: int, o: Option<Offender>) -> Scores {
    Scores {
        samples: s.samples.push(sample),
        worst: match o {
            Some(o) => offered(s.sense, s.keep, s.worst, o),
            None => s.worst,
        },
        ..s
    }
}

/// Nothing collected, higher being worse.
pub open spec fn fresh(keep: usize) -> Scores {
    Scores { sense: Sense::HigherIsWorse, keep: keep as int, samples: Seq::empty(), worst: Seq::empty() }
}

/// Nothing collected, lower being worse.
pub open spec fn fresh_low(keep: usize) -> Scores {
    Scores { sense: Sense::LowerIsWorse, keep: keep as int, samples: Seq::empty(), worst: Seq::empty() }
}

/// Worst first.
pub open spec fn ranked(sense: Sense, list: Seq<Offender>) -> bool {
    forall|i: int, j: int|
        0 <= i < j < list.len() ==> !worse(sense, (#[trigger] list[j]).value as int, (#[trigger] list[i]).value as int)
}

proof fn lemma_rank_of(sense: Sense, list: Seq<Offender>, v: int, n: int)
    requires
        ranked(sense, list),
        0 <= n <= list.len(),
    ensures
        0 <= rank_of(sense, list, v, n) <= n,
        forall|i: int| 0 <= i < rank_of(sense, list, v, n) ==> !worse(sense, v, (#[trigger] list[i]).value as int),
        forall|i: int| rank_of(sense, list, v, n) <= i < n ==> worse(sense, v, (#[trigger] list[i]).value as int),
    decreases n,
{
    if n > 0 {
        lemma_rank_of(sense, list, v, n - 1);
        let r = rank_of(sense, list, v, n - 1);
        if r < n - 1 {
            assert(worse(sense, v, list[r].value as int));
            assert(!worse(sense, list[n - 1].value as int, list[r].value as int));
        }
    }
}

/// Offering keeps the list ranked and no longer than asked, and what it leaves
/// out is no worse than anything it keeps.
pub proof fn the_worst_offenders_are_kept(sense: Sense, keep: int, list: Seq<Offender>, o: Offender)
    requires
        0 <= keep,
        list.len() <= keep,
        ranked(sense, list),
    ensures
        ({
            let kept = offered(sense, keep, list, o);
            &&& ranked(sense, kept)
            &&& kept.len() <= keep
            &&& kept.len() == list.len() || kept.len() == list.len() + 1
            &&& forall|i: int|
                0 <= i < list.len() && !kept.contains(#[trigger] list[i]) ==> forall|j: int|
                    0 <= j < kept.len() ==> !worse(sense, list[i].value as int, (#[trigger] kept[j]).value as int)
            &&& !kept.contains(o) ==> forall|j: int|
                0 <= j < kept.len() ==> !worse(sense, o.value as int, (#[trigger] kept[j]).value as int)
        }),
{
    let n = list.len() as int;
    lemma_rank_of(sense, list, o.value as int, n);
    let r = rank_of(sense, list, o.value as int, n);
    let longer = list.insert(r, o);
    let kept = offered(sense, keep, list, o);
    assert forall|i: int, j: int| 0 <= i < j < longer.len() implies !worse(
        sense,
        (#[trigger] longer[j]).value as int,
        (#[trigger] longer[i]).value as int,
    ) by {
        if i == r {
            assert(longer[j] == list[j - 1]);
        } else if j == r {
            assert(longer[i] == list[i]);
        } else {
            let a = if i < r {
                i
            } else {
                i - 1
            };
            let b = if j < r {
                j
            } else {
                j - 1
            };
            assert(longer[i] == list[a]);
            assert(longer[j] == list[b]);
        }
    }
    assert forall|i: int| 0 <= i < list.len() && !kept.contains(#[trigger] list[i]) implies forall|j: int|
        0 <= j < kept.len() ==> !worse(sense, list[i].value as int, (#[trigger] kept[j]).value as int) by {
        let at = if i < r {
            i
        } else {
            i + 1
        };
        assert(longer[at] == list[i]);
        if at < kept.len() {
            assert(kept[at] == list[i]);
        }
    }
    if !kept.contains(o) {
        assert(longer[r] == o);
        if r < kept.len() {
            assert(kept[r] == o);
        }
    }
}

/// The samples a metric collects, in order.
#[derive(Debug)]
pub struct Dist {
    pub samples: Vec<i128>,
}

pub open spec fn as_ints(v: Seq<i128>) -> Seq<int> {
    Seq::new(v.len(), |i: int| v[i] as int)
}

impl Dist {
    pub open spec fn view(&self) -> Seq<int> {
        as_ints(self.samples@)
    }

    pub fn new() -> (out: Dist)
        ensures
            out@ == Seq::<int>::empty(),
    {
        let out = Dist { samples: Vec::new() };
        assert(out@ =~= Seq::<int>::empty());
        out
    }

    pub fn push(&mut self, sample: i128)
        ensures
            final(self)@ == old(self)@.push(sample as int),
    {
        self.samples.push(sample);
        assert(self@ =~= old(self)@.push(sample as int));
    }

    pub fn is_empty(&self) -> (empty: bool)
        ensures
            empty == (self@.len() == 0),
    {
        self.samples.len() == 0
    }

    /// How many samples were taken.
    pub fn count(&self) -> (n: usize)
        ensures
            n == self@.len(),
    {
        self.samples.len()
    }

    /// The largest sample.
    pub fn max(&self) -> (out: Option<i128>)
        ensures
            match out {
                Some(m) => self@.contains(m as int) && forall|i: int| 0 <= i < self@.len() ==> #[trigger] self@[i] <= m,
                None => self@.len() == 0,
            },
    {
        self.extreme(Sense::HigherIsWorse)
    }

    /// The smallest sample.
    pub fn min(&self) -> (out: Option<i128>)
        ensures
            match out {
                Some(m) => self@.contains(m as int) && forall|i: int| 0 <= i < self@.len() ==> #[trigger] self@[i] >= m,
                None => self@.len() == 0,
            },
    {
        self.extreme(Sense::LowerIsWorse)
    }

    /// The worst sample in the given sense.
    pub fn extreme(&self, sense: Sense) -> (out: Option<i128>)
        ensures
            match out {
                Some(m) => self@.contains(m as int) && forall|i: int|
                    0 <= i < self@.len() ==> !worse(sense, #[trigger] self@[i], m as int),
                None => self@.len() == 0,
            },
    {
        if self.samples.len() == 0 {
            return None;
        }
        let mut best: i128 = self.samples[0];
        let mut i: usize = 1;
        assert(self@[0] == best);
        while i < self.samples.len()
            invariant
                1 <= i <= self.samples@.len(),
                self@.contains(best as int),
                forall|k: int| 0 <= k < i ==> !worse(sense, #[trigger] self@[k], best as int),
            decreases self.samples@.len() - i,
        {
            let v: i128 = self.samples[i];
            assert(self@[i as int] == v);
            let past: bool = match sense {
                Sense::HigherIsWorse => v > best,
                Sense::LowerIsWorse => v < best,
            };
            if past {
                best = v;
            }
            i = i + 1;
        }
        Some(best)
    }
}

/// One metric in the making: its samples and its worst offenders.
#[derive(Debug)]
pub struct Tally {
    pub sense: Sense,
    pub keep: usize,
    pub dist: Dist,
    pub worst: Vec<Offender>,
}

impl Tally {
    pub open spec fn view(&self) -> Scores {
        Scores { sense: self.sense, keep: self.keep as int, samples: self.dist@, worst: self.worst@ }
    }

    /// An empty tally that keeps `keep` offenders.
    pub fn new(sense: Sense, keep: usize) -> (out: Tally)
        ensures
            out@ == (Scores { sense, keep: keep as int, samples: Seq::empty(), worst: Seq::empty() }),
    {
        Tally { sense, keep, dist: Dist::new(), worst: Vec::new() }
    }

    pub(crate) fn offer(&mut self, o: Offender)
        requires
            old(self).worst@.len() < usize::MAX,
        ensures
            final(self).sense == old(self).sense,
            final(self).keep == old(self).keep,
            final(self).dist == old(self).dist,
            final(self).worst@ == offered(old(self).sense, old(self).keep as int, old(self).worst@, o),
    {
        let ghost list = self.worst@;
        let mut i: usize = 0;
        let n: usize = self.worst.len();
        let mut at: usize = 0;
        while i < n
            invariant
                i <= n,
                n == list.len(),
                self.worst@ == list,
                self.sense == old(self).sense,
                self.keep == old(self).keep,
                self.dist == old(self).dist,
                at <= i,
                at == rank_of(self.sense, list, o.value as int, i as int),
            decreases n - i,
        {
            let past: bool = match self.sense {
                Sense::HigherIsWorse => o.value > self.worst[i].value,
                Sense::LowerIsWorse => o.value < self.worst[i].value,
            };
            if at == i && !past {
                at = i + 1;
            }
            i = i + 1;
        }
        self.worst.insert(at, o);
        if self.worst.len() > self.keep {
            self.worst.truncate(self.keep);
        }
        assert(self.worst@ =~= offered(old(self).sense, old(self).keep as int, list, o));
    }

    /// Records a sample, with an offender when it is past the threshold.
    pub fn record(&mut self, sample: i128, offender: Option<Offender>)
        requires
            old(self).worst@.len() <= old(self).keep < usize::MAX,
        ensures
            final(self)@ == scored(old(self)@, sample as int, offender),
            final(self).worst@.len() <= final(self).keep < usize::MAX,
            final(self).sense == old(self).sense,
            final(self).keep == old(self).keep,
    {
        self.dist.push(sample);
        if let Some(o) = offender {
            self.offer(o);
        }
    }

    /// No more offenders are kept than asked for.
    pub open spec fn well_formed(&self) -> bool {
        self.worst@.len() <= self.keep < usize::MAX
    }
}

/// A finished metric.
#[derive(Debug)]
pub struct Metric {
    pub id: String,
    pub law: Invariant,
    pub sense: Sense,
    pub threshold: i128,
    /// Whether nothing was measured, which is not the same as nothing wrong.
    pub skipped: bool,
    pub dist: Dist,
    pub worst: Vec<Offender>,
}

/// How many of the first `n` samples are past the threshold.
pub open spec fn past_count(sense: Sense, threshold: int, samples: Seq<int>, n: int) -> int
    decreases n,
{
    if n <= 0 {
        0
    } else {
        past_count(sense, threshold, samples, n - 1) + if worse(sense, samples[n - 1], threshold) {
            1int
        } else {
            0
        }
    }
}

impl Metric {
    /// What a metric made from collected scores holds.
    pub open spec fn reports(&self, id: Seq<char>, law: Invariant, threshold: int, skipped: bool, s: Scores) -> bool {
        &&& self.id@ == id
        &&& self.law == law
        &&& self.sense == s.sense
        &&& self.threshold == threshold
        &&& self.skipped == skipped
        &&& self.dist@ == s.samples
        &&& self.worst@ == s.worst
    }

    /// Closes a tally into a metric.
    pub fn close(id: &str, law: Invariant, threshold: i128, skipped: bool, t: Tally) -> (m: Metric)
        ensures
            m.reports(id@, law, threshold as int, skipped, t@),
    {
        Metric { id: id.to_owned(), law, sense: t.sense, threshold, skipped, dist: t.dist, worst: t.worst }
    }

    /// How many samples are past the threshold.
    pub fn violations(&self) -> (n: usize)
        ensures
            n == past_count(self.sense, self.threshold as int, self.dist@, self.dist@.len() as int),
    {
        let mut n: usize = 0;
        let mut i: usize = 0;
        while i < self.dist.samples.len()
            invariant
                i <= self.dist.samples@.len(),
                n <= i,
                n == past_count(self.sense, self.threshold as int, self.dist@, i as int),
            decreases self.dist.samples@.len() - i,
        {
            let v: i128 = self.dist.samples[i];
            assert(self.dist@[i as int] == v);
            let past: bool = match self.sense {
                Sense::HigherIsWorse => v > self.threshold,
                Sense::LowerIsWorse => v < self.threshold,
            };
            if past {
                n = n + 1;
            }
            i = i + 1;
        }
        n
    }

    /// The worst sample, past the threshold or not.
    pub fn worst_value(&self) -> (out: Option<i128>)
        ensures
            match out {
                Some(m) => self.dist@.contains(m as int) && forall|i: int|
                    0 <= i < self.dist@.len() ==> !worse(self.sense, #[trigger] self.dist@[i], m as int),
                None => self.dist@.len() == 0,
            },
    {
        self.dist.extreme(self.sense)
    }
}

/// Whether one value is worse than another: larger where higher is worse, and
/// smaller where lower is.
pub open spec fn is_worse(sense: Sense, a: int, b: int) -> bool {
    (sense == Sense::HigherIsWorse && a > b) || (sense == Sense::LowerIsWorse && a < b)
}

/// An offender goes behind every one that is as bad and before every one that is
/// not; the others keep their order, and only the last can fall out.
pub proof fn an_offender_goes_behind_its_equals(sense: Sense, keep: int, list: Seq<Offender>, o: Offender) -> (r: int)
    requires
        0 <= keep,
        list.len() <= keep,
        ranked(sense, list),
    ensures
        ({
            let kept = offered(sense, keep, list, o);
            &&& 0 <= r <= list.len()
            &&& kept.len() == if list.len() < keep {
                list.len() + 1
            } else {
                keep as nat
            }
            &&& r < keep ==> kept[r] == o
            &&& forall|i: int|
                0 <= i < r ==> kept[i] == (#[trigger] list[i]) && !is_worse(sense, o.value as int, list[i].value as int)
            &&& forall|i: int|
                r <= i < list.len() && i + 1 < keep ==> kept[i + 1] == #[trigger] list[i]
            &&& forall|i: int| r <= i < list.len() ==> is_worse(sense, o.value as int, (#[trigger] list[i]).value as int)
        }),
{
    let n = list.len() as int;
    lemma_rank_of(sense, list, o.value as int, n);
    let r = rank_of(sense, list, o.value as int, n);
    let longer = list.insert(r, o);
    assert forall|i: int| r <= i < n implies longer[i + 1] == #[trigger] list[i] by {}
    r
}

} // verus!
