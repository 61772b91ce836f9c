//! Fitting bands to the ground they stand on: how wide the earthwork under a
//! segment lets it be, and one width along a way.
use std::collections::HashMap;
use vstd::prelude::*;
use vstd::std_specs::hash::*;
use crate::arith::{abs, clamp, distance, max, mean, min};
use crate::synth::walkgraph::NO_HOST;
use crate::synth::walkway::{drawn_half, Surface, WalkSeg};

pub mod widths;

verus! {

/// Largest fall a short hostless pavement may span before it is a wall.
pub const CORNER_STEP_UM: u64 = 1_500_000;

/// Lateral sampling pitch of the face probe.
pub const FACE_STEP_UM: u64 = 750_000;

/// How much of the face allowance a narrowed band aims at, in hundredths.
pub const FIT_MARGIN: u64 = 85;

/// The widest anything here is.
pub const MAX_WIDTH_UM: u64 = 1_000_000_000_000;

/// What a segment is fitted by.
#[derive(Clone, Copy, Debug, PartialEq, Eq, Structural)]
pub struct FitPriors {
    /// Deepest face the material's bench may cut.
    pub cap: u64,
    /// How much wider than its band a bench is, on each side.
    pub verge: u64,
    /// Narrowest band worth drawing.
    pub min_width: u64,
}

pub open spec fn priors_fit(p: FitPriors) -> bool {
    p.cap <= MAX_WIDTH_UM && p.verge <= MAX_WIDTH_UM && p.min_width <= MAX_WIDTH_UM
}

pub open spec fn seg_fits(s: WalkSeg) -> bool {
    drawn_half(s) <= MAX_WIDTH_UM
}

/// Whether a hostless pavement falls too far from end to end: a link keeps the
/// absolute step, a longer one half its length.
pub open spec fn is_wall(s: WalkSeg, ha: int, hb: int) -> bool {
    s.surface == Surface::Walkway && 2 * abs(ha - hb) > max(2 * CORNER_STEP_UM as int, s.length as int)
}

/// Where a segment is seated: on the ground under its two ends, or at the
/// height its street draws it at.
pub open spec fn seat_height(s: WalkSeg, ends: Option<(i64, i64)>) -> int {
    match ends {
        Some((ha, hb)) => mean(ha + hb, 2),
        None => mean(s.height_a + s.height_b, 2),
    }
}

/// Half the bench a segment asks for.
pub open spec fn nominal(s: WalkSeg, p: FitPriors) -> int {
    drawn_half(s) + p.verge
}

/// Half the narrowest bench it may be given, never wider than it asked for.
pub open spec fn least(s: WalkSeg, p: FitPriors) -> int {
    min((p.min_width / 2) as int + p.verge, nominal(s, p))
}

/// Half the bench whose face a measured `rise` predicts is inside the
/// allowance.
pub open spec fn narrowed(s: WalkSeg, p: FitPriors, rise: int) -> int {
    clamp(nominal(s, p) * p.cap * FIT_MARGIN / (100 * rise), least(s, p), nominal(s, p))
}

/// How many points on each side a face of half width `w` is read at.
pub open spec fn face_steps(w: int) -> int {
    max((w + FACE_STEP_UM - 1) / FACE_STEP_UM as int, 1)
}

/// How far out the `k`th of them stands.
pub open spec fn face_offset(w: int, k: int) -> int {
    w * k / face_steps(w)
}

/// The deepest deviation among the first `n` pairs of heights, left and right.
pub open spec fn face_of(target: int, heights: Seq<(i64, i64)>, n: int) -> int
    decreases n,
{
    if n <= 0 {
        0
    } else {
        max(
            face_of(target, heights, n - 1),
            max(abs(target - heights[n - 1].0), abs(target - heights[n - 1].1)),
        )
    }
}

/// A face to read: its half width, the height it is held against, and whether
/// it is the narrowed one.
#[derive(Clone, Copy, Debug, PartialEq, Eq, Structural)]
pub struct FaceProbe {
    pub target: i64,
    pub width: u64,
    pub narrowed: bool,
}

/// A fit under way, or its answer: the half width a segment can be given, where
/// it can be given any.
#[derive(Clone, Copy, Debug, PartialEq, Eq, Structural)]
pub enum FitStep {
    Done { half: Option<u64> },
    Probe { face: FaceProbe },
}

/// How a fit begins. `ends` is the ground under a hostless segment's ends.
pub open spec fn fit_begun(s: WalkSeg, ends: Option<(i64, i64)>, p: FitPriors) -> FitStep {
    if s.length == 0 {
        FitStep::Done { half: Some(drawn_half(s)) }
    } else if ends is Some && is_wall(s, (ends->0).0 as int, (ends->0).1 as int) {
        FitStep::Done { half: None }
    } else {
        FitStep::Probe {
            face: FaceProbe { target: seat_height(s, ends) as i64, width: nominal(s, p) as u64, narrowed: false },
        }
    }
}

/// How a fit goes on once a face is read.
pub open spec fn fit_answered(s: WalkSeg, p: FitPriors, f: FaceProbe, heights: Seq<(i64, i64)>) -> FitStep {
    let rise = face_of(f.target as int, heights, heights.len() as int);
    if rise <= p.cap {
        FitStep::Done {
            half: Some(
                if f.narrowed {
                    (f.width - p.verge) as u64
                } else {
                    drawn_half(s)
                },
            ),
        }
    } else if f.narrowed {
        FitStep::Done { half: None }
    } else {
        FitStep::Probe { face: FaceProbe { width: narrowed(s, p, rise) as u64, narrowed: true, ..f } }
    }
}

proof fn lemma_narrowed(s: WalkSeg, p: FitPriors, rise: int)
    requires
        seg_fits(s),
        priors_fit(p),
        rise > 0,
    ensures
        least(s, p) <= narrowed(s, p, rise) <= nominal(s, p),
        p.verge <= narrowed(s, p, rise) <= 2 * MAX_WIDTH_UM,
{
}

/// A fit only ever takes width away, and leaves no band narrower than one worth
/// drawing unless it arrived so.
pub proof fn a_fit_never_widens(s: WalkSeg, ends: Option<(i64, i64)>, p: FitPriors, first: Seq<(i64, i64)>, second: Seq<(i64, i64)>)
    requires
        seg_fits(s),
        priors_fit(p),
        fit_begun(s, ends, p) is Probe,
    ensures
        ({
            let one = fit_answered(s, p, fit_begun(s, ends, p)->face, first);
            let last = match one {
                FitStep::Done { half } => half,
                FitStep::Probe { face } => match fit_answered(s, p, face, second) {
                    FitStep::Done { half } => half,
                    FitStep::Probe { .. } => None,
                },
            };
            &&& one is Probe ==> fit_answered(s, p, one->face, second) is Done
            &&& last is Some ==> last->0 <= drawn_half(s)
            &&& last is Some ==> min((p.min_width / 2) as int, drawn_half(s) as int) <= last->0
        }),
{
    let f = fit_begun(s, ends, p)->face;
    let rise = face_of(f.target as int, first, first.len() as int);
    if rise > p.cap {
        lemma_narrowed(s, p, rise);
    }
}

/// A wall inside the width refuses it: a fit whose last face held a deviation
/// past the allowance gives no width.
pub proof fn a_wall_inside_the_width_is_refused(s: WalkSeg, p: FitPriors, f: FaceProbe, heights: Seq<(i64, i64)>, k: int)
    requires
        0 <= k < heights.len(),
        abs(f.target - heights[k].0) > p.cap || abs(f.target - heights[k].1) > p.cap,
    ensures
        !(fit_answered(s, p, f, heights) is Done && fit_answered(s, p, f, heights)->half is Some),
{
    lemma_face_of(f.target as int, heights, heights.len() as int, k);
}

proof fn lemma_face_of(target: int, heights: Seq<(i64, i64)>, n: int, k: int)
    requires
        0 <= k < n <= heights.len(),
    ensures
        abs(target - heights[k].0) <= face_of(target, heights, n),
        abs(target - heights[k].1) <= face_of(target, heights, n),
    decreases n,
{
    if k < n - 1 {
        lemma_face_of(target, heights, n - 1, k);
    }
}

/// The middle of two heights, rounded down.
fn middle(a: i64, b: i64) -> (m: i64)
    ensures
        m == mean(a + b, 2),
{
    let sum: i128 = a as i128 + b as i128;
    proof {
        crate::arith::lemma_mean_bounds(sum as int, 2, i64::MIN as int, i64::MAX as int);
    }
    crate::arith::mean_of(sum, 2, Ghost(i64::MIN as int), Ghost(i64::MAX as int))
}

/// Begins to fit a segment.
pub fn begin_fit(s: &WalkSeg, ends: Option<(i64, i64)>, p: &FitPriors) -> (out: FitStep)
    requires
        seg_fits(*s),
        priors_fit(*p),
    ensures
        out == fit_begun(*s, ends, *p),
{
    if s.length == 0 {
        return FitStep::Done { half: Some(s.drawn_half()) };
    }
    let target: i64 = match ends {
        Some((ha, hb)) => {
            let fall: u128 = 2 * distance(ha, hb) as u128;
            let link: u128 = 2 * CORNER_STEP_UM as u128;
            let allow: u128 = if link < s.length as u128 { s.length as u128 } else { link };
            if matches!(s.surface, Surface::Walkway) && fall > allow {
                return FitStep::Done { half: None };
            }
            middle(ha, hb)
        },
        None => middle(s.height_a, s.height_b),
    };
    FitStep::Probe { face: FaceProbe { target, width: s.drawn_half() + p.verge, narrowed: false } }
}

/// How far out, on each side, a face is read.
pub fn face_offsets(w: u64) -> (out: Vec<u64>)
    requires
        w <= 2 * MAX_WIDTH_UM,
    ensures
        out@.len() == face_steps(w as int),
        forall|i: int| 0 <= i < out@.len() ==> #[trigger] out@[i] == face_offset(w as int, i + 1),
{
    let n: u64 = (w + (FACE_STEP_UM - 1)) / FACE_STEP_UM;
    let steps: u64 = if n < 1 { 1 } else { n };
    let mut out: Vec<u64> = Vec::new();
    let mut k: u64 = 1;
    while k <= steps
        invariant
            1 <= k <= steps + 1,
            steps == face_steps(w as int),
            steps <= 2 * MAX_WIDTH_UM,
            w <= 2 * MAX_WIDTH_UM,
            out@.len() == k - 1,
            forall|i: int| 0 <= i < out@.len() ==> #[trigger] out@[i] == face_offset(w as int, i + 1),
        decreases steps + 1 - k,
    {
        proof {
            assert(w * k <= w * steps) by (nonlinear_arith)
                requires
                    k <= steps,
            ;
            assert(w * steps <= (2 * MAX_WIDTH_UM) * (2 * MAX_WIDTH_UM)) by (nonlinear_arith)
                requires
                    w <= 2 * MAX_WIDTH_UM,
                    steps <= 2 * MAX_WIDTH_UM,
            ;
            assert((2 * MAX_WIDTH_UM) * (2 * MAX_WIDTH_UM) == 4_000_000_000_000_000_000_000_000) by (nonlinear_arith);
            assert(w * k <= w * steps);
            vstd::arithmetic::div_mod::lemma_div_is_ordered((w * k) as int, (w * steps) as int, steps as int);
            vstd::arithmetic::div_mod::lemma_div_by_multiple(w as int, steps as int);
        }
        let at: u128 = (w as u128) * (k as u128) / (steps as u128);
        out.push(at as u64);
        k = k + 1;
    }
    out
}

/// Goes on with a fit once the ground across a face is read.
pub fn answer_fit(s: &WalkSeg, p: &FitPriors, f: &FaceProbe, heights: &[(i64, i64)]) -> (out: FitStep)
    requires
        seg_fits(*s),
        priors_fit(*p),
        f.narrowed ==> p.verge <= f.width,
    ensures
        out == fit_answered(*s, *p, *f, heights@),
{
    let mut rise: u64 = 0;
    let mut i: usize = 0;
    while i < heights.len()
        invariant
            i <= heights@.len(),
            rise == face_of(f.target as int, heights@, i as int),
        decreases heights@.len() - i,
    {
        let left: u64 = distance(f.target, heights[i].0);
        let right: u64 = distance(f.target, heights[i].1);
        let deep: u64 = if left < right { right } else { left };
        if rise < deep {
            rise = deep;
        }
        i = i + 1;
    }
    if rise <= p.cap {
        let half: u64 = if f.narrowed { f.width - p.verge } else { s.drawn_half() };
        return FitStep::Done { half: Some(half) };
    }
    if f.narrowed {
        return FitStep::Done { half: None };
    }
    let asked: u64 = s.drawn_half() + p.verge;
    let low: u64 = p.min_width / 2 + p.verge;
    let floor: u64 = if low < asked { low } else { asked };
    proof {
        assert(asked * p.cap * FIT_MARGIN <= (2 * MAX_WIDTH_UM) * MAX_WIDTH_UM * 85) by (nonlinear_arith)
            requires
                asked <= 2 * MAX_WIDTH_UM,
                p.cap <= MAX_WIDTH_UM,
                FIT_MARGIN == 85,
        ;
        assert(asked * p.cap <= (2 * MAX_WIDTH_UM) * MAX_WIDTH_UM) by (nonlinear_arith)
            requires
                asked <= 2 * MAX_WIDTH_UM,
                p.cap <= MAX_WIDTH_UM,
        ;
        assert((2 * MAX_WIDTH_UM) * MAX_WIDTH_UM == 2_000_000_000_000_000_000_000_000) by (nonlinear_arith);
        assert((2 * MAX_WIDTH_UM) * MAX_WIDTH_UM * 85 == 170_000_000_000_000_000_000_000_000) by (nonlinear_arith);
    }
    let aimed: u128 = (asked as u128) * (p.cap as u128) * (FIT_MARGIN as u128) / (100 * rise as u128);
    let width: u64 = if aimed < floor as u128 {
        floor
    } else if aimed > asked as u128 {
        asked
    } else {
        aimed as u64
    };
    FitStep::Probe { face: FaceProbe { target: f.target, width, narrowed: true } }
}

// ---------------------------------------------------------------------------
// One width along a way.
// ---------------------------------------------------------------------------

/// A half width to the millimetre.
pub open spec fn width_key(half: u64) -> u64 {
    ((half + 500) / 1000) as u64
}

/// Whether a segment has a say in the width of a way.
pub open spec fn votes(bands: Seq<WalkSeg>, sources: Seq<u64>, source: u64, i: int) -> bool {
    source != 0 && sources[i] == source && bands[i].corridor == NO_HOST
}

/// How much of a way's length among the first `n` segments is drawn at a width.
pub open spec fn length_at(bands: Seq<WalkSeg>, sources: Seq<u64>, source: u64, key: u64, n: int) -> int
    decreases n,
{
    if n <= 0 {
        0
    } else {
        length_at(bands, sources, source, key, n - 1) + if votes(bands, sources, source, n - 1) && width_key(
            drawn_half(bands[n - 1]),
        ) == key {
            bands[n - 1].length as int
        } else {
            0
        }
    }
}

/// Whether a width carries more of a way than another, the wider on a tie.
pub open spec fn outweighs(bands: Seq<WalkSeg>, sources: Seq<u64>, source: u64, key: u64, other: u64) -> bool {
    let n = bands.len() as int;
    let (a, b) = (length_at(bands, sources, source, key, n), length_at(bands, sources, source, other, n));
    a > b || (a == b && key > other)
}

/// The width that carries most of a way, among those of its first `n`
/// segments.
pub open spec fn main_width(bands: Seq<WalkSeg>, sources: Seq<u64>, source: u64, n: int) -> Option<u64>
    decreases n,
{
    if n <= 0 {
        None
    } else {
        let best = main_width(bands, sources, source, n - 1);
        let key = width_key(drawn_half(bands[n - 1]));
        if votes(bands, sources, source, n - 1) && (best is None || outweighs(bands, sources, source, key, best->0)) {
            Some(key)
        } else {
            best
        }
    }
}

/// A hostless segment brought down to the width that carries most of its way.
pub open spec fn unified(bands: Seq<WalkSeg>, sources: Seq<u64>, i: int) -> WalkSeg {
    let s = bands[i];
    match main_width(bands, sources, sources[i], bands.len() as int) {
        Some(key) if s.corridor == NO_HOST => WalkSeg {
            reach_a: min(key * 1000, s.reach_a as int) as u64,
            reach_b: min(key * 1000, s.reach_b as int) as u64,
            ..s
        },
        _ => s,
    }
}

proof fn lemma_main_width(bands: Seq<WalkSeg>, sources: Seq<u64>, source: u64, n: int)
    requires
        0 <= n <= bands.len(),
    ensures
        match main_width(bands, sources, source, n) {
            Some(key) => {
                &&& exists|i: int|
                    0 <= i < n && votes(bands, sources, source, i) && width_key(drawn_half(#[trigger] bands[i])) == key
                &&& forall|i: int|
                    0 <= i < n && votes(bands, sources, source, i) ==> !outweighs(
                        bands,
                        sources,
                        source,
                        width_key(drawn_half(#[trigger] bands[i])),
                        key,
                    )
            },
            None => forall|i: int| 0 <= i < n ==> !votes(bands, sources, source, i),
        },
    decreases n,
{
    if n > 0 {
        lemma_main_width(bands, sources, source, n - 1);
        let best = main_width(bands, sources, source, n - 1);
        let key = width_key(drawn_half(bands[n - 1]));
        if votes(bands, sources, source, n - 1) {
            assert(width_key(drawn_half(bands[n - 1])) == key);
        }
        if let Some(b) = best {
            let i = choose|i: int|
                0 <= i < n - 1 && votes(bands, sources, source, i) && width_key(drawn_half(#[trigger] bands[i])) == b;
            assert(width_key(drawn_half(bands[i])) == b);
        }
    }
}

/// A way is drawn at the width most of its length carries, chosen by length and
/// the wider on a tie.
pub proof fn the_main_width_carries_most_of_the_way(bands: Seq<WalkSeg>, sources: Seq<u64>, source: u64, i: int)
    requires
        0 <= i < bands.len(),
        votes(bands, sources, source, i),
    ensures
        main_width(bands, sources, source, bands.len() as int) is Some,
        ({
            let key = main_width(bands, sources, source, bands.len() as int)->0;
            let n = bands.len() as int;
            length_at(bands, sources, source, width_key(drawn_half(bands[i])), n) <= length_at(
                bands,
                sources,
                source,
                key,
                n,
            )
        }),
{
    lemma_main_width(bands, sources, source, bands.len() as int);
}

/// Unifying only ever narrows, and never touches a street's strip.
pub proof fn unifying_never_widens(bands: Seq<WalkSeg>, sources: Seq<u64>, i: int)
    ensures
        unified(bands, sources, i).reach_a <= bands[i].reach_a,
        unified(bands, sources, i).reach_b <= bands[i].reach_b,
        bands[i].corridor != NO_HOST ==> unified(bands, sources, i) == bands[i],
{
}

spec fn vote_key(source: u64, key: u64) -> int {
    source * 0x1_0000_0000_0000_0000 + key
}

spec fn tallied(m: Map<u128, u128>, source: u64, key: u64) -> int {
    if m.contains_key(vote_key(source, key) as u128) {
        m[vote_key(source, key) as u128] as int
    } else {
        0
    }
}

fn key_of(half: u64) -> (key: u64)
    ensures
        key == width_key(half),
{
    ((half as u128 + 500) / 1000) as u64
}

fn tally_at(m: &HashMap<u128, u128>, source: u64, key: u64) -> (n: u128)
    ensures
        n == tallied(m@, source, key),
{
    broadcast use group_hash_axioms;

    match m.get(&((source as u128) * 0x1_0000_0000_0000_0000 + key as u128)) {
        Some(n) => *n,
        None => 0,
    }
}

proof fn lemma_length_bounds(bands: Seq<WalkSeg>, sources: Seq<u64>, source: u64, key: u64, n: int)
    requires
        0 <= n <= bands.len(),
    ensures
        0 <= length_at(bands, sources, source, key, n) <= n * u64::MAX,
    decreases n,
{
    if n > 0 {
        lemma_length_bounds(bands, sources, source, key, n - 1);
        assert((n - 1) * u64::MAX + u64::MAX == n * u64::MAX) by (nonlinear_arith);
    }
}

fn tally_widths(bands: &Vec<WalkSeg>, sources: &Vec<u64>) -> (m: HashMap<u128, u128>)
    requires
        sources@.len() == bands@.len(),
    ensures
        forall|source: u64, key: u64|
            #[trigger] tallied(m@, source, key) == length_at(bands@, sources@, source, key, bands@.len() as int),
{
    broadcast use group_hash_axioms;

    let mut m: HashMap<u128, u128> = HashMap::new();
    let n: usize = bands.len();
    let mut i: usize = 0;
    while i < n
        invariant
            i <= n,
            n == bands@.len(),
            sources@.len() == bands@.len(),
            forall|source: u64, key: u64|
                #[trigger] tallied(m@, source, key) == length_at(bands@, sources@, source, key, i as int),
        decreases n - i,
    {
        let s: WalkSeg = bands[i];
        let source: u64 = sources[i];
        let ghost before = m@;
        if source != 0 && s.corridor == NO_HOST {
            let key: u64 = key_of(s.drawn_half());
            let was: u128 = tally_at(&m, source, key);
            proof {
                lemma_length_bounds(bands@, sources@, source, key, i as int);
                assert(i * u64::MAX + u64::MAX <= u128::MAX) by (nonlinear_arith)
                    requires
                        i < 0x1_0000_0000_0000_0000,
                ;
            }
            m.insert((source as u128) * 0x1_0000_0000_0000_0000 + key as u128, was + s.length as u128);
            proof {
                assert forall|src: u64, k: u64| #[trigger] tallied(m@, src, k) == length_at(
                    bands@,
                    sources@,
                    src,
                    k,
                    i + 1,
                ) by {
                    assert(tallied(before, src, k) == length_at(bands@, sources@, src, k, i as int));
                    if src == source && k == key {
                    } else {
                        assert(vote_key(src, k) != vote_key(source, key));
                    }
                }
            }
        } else {
            proof {
                assert forall|src: u64, k: u64| #[trigger] tallied(m@, src, k) == length_at(
                    bands@,
                    sources@,
                    src,
                    k,
                    i + 1,
                ) by {
                    assert(tallied(before, src, k) == length_at(bands@, sources@, src, k, i as int));
                }
            }
        }
        i = i + 1;
    }
    m
}

spec fn best_of(m: Map<u64, u64>, source: u64) -> Option<u64> {
    if m.contains_key(source) {
        Some(m[source])
    } else {
        None
    }
}

fn main_widths(bands: &Vec<WalkSeg>, sources: &Vec<u64>) -> (m: HashMap<u64, u64>)
    requires
        sources@.len() == bands@.len(),
    ensures
        forall|source: u64| #[trigger]
            best_of(m@, source) == main_width(bands@, sources@, source, bands@.len() as int),
{
    broadcast use group_hash_axioms;

    let lengths: HashMap<u128, u128> = tally_widths(bands, sources);
    let mut m: HashMap<u64, u64> = HashMap::new();
    let n: usize = bands.len();
    let mut i: usize = 0;
    while i < n
        invariant
            i <= n,
            n == bands@.len(),
            sources@.len() == bands@.len(),
            forall|source: u64, key: u64|
                #[trigger] tallied(lengths@, source, key) == length_at(bands@, sources@, source, key, n as int),
            forall|source: u64| #[trigger] best_of(m@, source) == main_width(bands@, sources@, source, i as int),
        decreases n - i,
    {
        let s: WalkSeg = bands[i];
        let source: u64 = sources[i];
        let ghost before = m@;
        assert(best_of(before, source) == main_width(bands@, sources@, source, i as int));
        if source != 0 && s.corridor == NO_HOST {
            let key: u64 = key_of(s.drawn_half());
            let better: bool = match m.get(&source) {
                None => true,
                Some(best) => {
                    let a: u128 = tally_at(&lengths, source, key);
                    let b: u128 = tally_at(&lengths, source, *best);
                    a > b || (a == b && key > *best)
                },
            };
            if better {
                m.insert(source, key);
            }
        }
        proof {
            assert forall|src: u64| #[trigger] best_of(m@, src) == main_width(bands@, sources@, src, i + 1) by {
                assert(best_of(before, src) == main_width(bands@, sources@, src, i as int));
            }
        }
        i = i + 1;
    }
    m
}

/// Draws every way at one width, by narrowing to it and never by widening.
pub fn unify_width_along_ways(bands: &mut Vec<WalkSeg>, sources: &Vec<u64>)
    requires
        sources@.len() == old(bands)@.len(),
    ensures
        final(bands)@.len() == old(bands)@.len(),
        forall|i: int|
            0 <= i < old(bands)@.len() ==> #[trigger] final(bands)@[i] == unified(old(bands)@, sources@, i),
{
    broadcast use group_hash_axioms;

    let ghost before = bands@;
    let widths: HashMap<u64, u64> = main_widths(bands, sources);
    let n: usize = bands.len();
    let mut i: usize = 0;
    while i < n
        invariant
            i <= n,
            n == before.len(),
            bands@.len() == n,
            sources@.len() == n,
            forall|source: u64| #[trigger] best_of(widths@, source) == main_width(before, sources@, source, n as int),
            forall|k: int| 0 <= k < i ==> #[trigger] bands@[k] == unified(before, sources@, k),
            forall|k: int| i <= k < n ==> #[trigger] bands@[k] == before[k],
        decreases n - i,
    {
        let mut s: WalkSeg = bands[i];
        let source: u64 = sources[i];
        assert(best_of(widths@, source) == main_width(before, sources@, source, n as int));
        if s.corridor == NO_HOST {
            if let Some(key) = widths.get(&source) {
                let want: u128 = *key as u128 * 1000;
                if want < s.reach_a as u128 {
                    s.reach_a = want as u64;
                }
                if want < s.reach_b as u128 {
                    s.reach_b = want as u64;
                }
                bands.set(i, s);
            }
        }
        i = i + 1;
    }
}

// ---------------------------------------------------------------------------
// A continuous width along a run.
// ---------------------------------------------------------------------------

/// Whether one segment goes on as the next: the same run of one surface.
pub open spec fn chains(a: WalkSeg, b: WalkSeg) -> bool {
    &&& a.surface == Surface::Walkway || a.surface == Surface::Path
    &&& a.surface == b.surface
    &&& a.level == b.level
    &&& a.layer == b.layer
    &&& a.corridor == b.corridor
    &&& a.b == b.a
}

/// The half width two segments share where one goes on as the other.
pub open spec fn shared_half(a: WalkSeg, b: WalkSeg) -> u64 {
    if a.reach_b < b.reach_a {
        a.reach_b
    } else {
        b.reach_a
    }
}

/// A segment whose ends take the narrower of the widths that meet there.
pub open spec fn tapered(bands: Seq<WalkSeg>, i: int) -> WalkSeg {
    let s = bands[i];
    WalkSeg {
        reach_a: if i > 0 && chains(bands[i - 1], s) {
            shared_half(bands[i - 1], s)
        } else {
            s.reach_a
        },
        reach_b: if i + 1 < bands.len() && chains(s, bands[i + 1]) {
            shared_half(s, bands[i + 1])
        } else {
            s.reach_b
        },
        ..s
    }
}

/// A tapered run is continuous in width, and no end of it is wider than it was.
pub proof fn a_tapered_run_is_continuous(bands: Seq<WalkSeg>, i: int)
    requires
        0 <= i,
        i + 1 < bands.len(),
        chains(bands[i], bands[i + 1]),
    ensures
        tapered(bands, i).reach_b == tapered(bands, i + 1).reach_a,
        tapered(bands, i).reach_b <= bands[i].reach_b,
        tapered(bands, i + 1).reach_a <= bands[i + 1].reach_a,
{
}

fn goes_on(a: &WalkSeg, b: &WalkSeg) -> (yes: bool)
    ensures
        yes == chains(*a, *b),
{
    let pedestrian: bool = match (a.surface, b.surface) {
        (Surface::Walkway, Surface::Walkway) => true,
        (Surface::Path, Surface::Path) => true,
        _ => false,
    };
    pedestrian && a.level == b.level && a.layer == b.layer && a.corridor == b.corridor && a.b.lon == b.a.lon && a.b.lat
        == b.a.lat
}

/// Makes the drawn width continuous along every run.
pub fn taper_along_runs(bands: &mut Vec<WalkSeg>)
    ensures
        final(bands)@.len() == old(bands)@.len(),
        forall|i: int| 0 <= i < old(bands)@.len() ==> #[trigger] final(bands)@[i] == tapered(old(bands)@, i),
{
    let ghost before = bands@;
    let n: usize = bands.len();
    let mut joins: Vec<Option<u64>> = Vec::new();
    let mut i: usize = 0;
    while i < n
        invariant
            i <= n,
            n == before.len(),
            bands@ == before,
            joins@.len() == i,
            forall|k: int|
                0 <= k < i ==> #[trigger] joins@[k] == (if k + 1 < n && chains(before[k], before[k + 1]) {
                    Some(shared_half(before[k], before[k + 1]))
                } else {
                    None
                }),
        decreases n - i,
    {
        let mut join: Option<u64> = None;
        if i < n - 1 {
            let a: WalkSeg = bands[i];
            let b: WalkSeg = bands[i + 1];
            if goes_on(&a, &b) {
                join = Some(if a.reach_b < b.reach_a { a.reach_b } else { b.reach_a });
            }
        }
        joins.push(join);
        i = i + 1;
    }
    let mut k: usize = 0;
    while k < n
        invariant
            k <= n,
            n == before.len(),
            bands@.len() == n,
            joins@.len() == n,
            forall|j: int|
                0 <= j < n ==> #[trigger] joins@[j] == (if j + 1 < n && chains(before[j], before[j + 1]) {
                    Some(shared_half(before[j], before[j + 1]))
                } else {
                    None
                }),
            forall|j: int| 0 <= j < k ==> #[trigger] bands@[j] == tapered(before, j),
            forall|j: int| k <= j < n ==> #[trigger] bands@[j] == before[j],
        decreases n - k,
    {
        let mut s: WalkSeg = bands[k];
        if k > 0 {
            assert(joins@[k - 1] == (if chains(before[k - 1], before[k as int]) {
                Some(shared_half(before[k - 1], before[k as int]))
            } else {
                None
            }));
            if let Some(h) = joins[k - 1] {
                s.reach_a = h;
            }
        }
        assert(joins@[k as int] == (if k + 1 < n && chains(before[k as int], before[k + 1]) {
            Some(shared_half(before[k as int], before[k + 1]))
        } else {
            None
        }));
        if let Some(h) = joins[k] {
            s.reach_b = h;
        }
        bands.set(k, s);
        k = k + 1;
    }
}

// ---------------------------------------------------------------------------
// The fit as a whole.
// ---------------------------------------------------------------------------

/// What the fit of a segment came to: the half width it can be given, on the
/// ladder of widths, and the ground under a hostless one's ends.
#[derive(Clone, Copy, Debug)]
pub struct FitAnswer {
    pub half: Option<u64>,
    pub ends: Option<(i64, i64)>,
}

/// A segment seated on the ground under its ends.
pub open spec fn stamped(s: WalkSeg, ends: Option<(i64, i64)>) -> WalkSeg {
    match ends {
        Some((ha, hb)) if s.corridor == NO_HOST => WalkSeg { height_a: ha, height_b: hb, ..s },
        _ => s,
    }
}

/// A segment after its fit, where it keeps a width: only at grade, and never
/// wider.
pub open spec fn fitted(s: WalkSeg, f: FitAnswer) -> Option<WalkSeg> {
    if s.level != 0 {
        Some(s)
    } else {
        match f.half {
            None => None,
            Some(half) => {
                let t = stamped(s, f.ends);
                Some(
                    WalkSeg {
                        reach_a: min(half as int, t.reach_a as int) as u64,
                        reach_b: min(half as int, t.reach_b as int) as u64,
                        ..t
                    },
                )
            },
        }
    }
}

/// The first `n` segments that keep a width.
pub open spec fn kept_bands(bands: Seq<WalkSeg>, answers: Seq<FitAnswer>, n: int) -> Seq<WalkSeg>
    decreases n,
{
    if n <= 0 {
        Seq::empty()
    } else {
        let rest = kept_bands(bands, answers, n - 1);
        match fitted(bands[n - 1], answers[n - 1]) {
            Some(s) => rest.push(s),
            None => rest,
        }
    }
}

/// The source of a segment, nought past the end of the list.
pub open spec fn source_at(sources: Seq<u64>, i: int) -> u64 {
    if i < sources.len() {
        sources[i]
    } else {
        0
    }
}

/// Their sources.
pub open spec fn kept_sources(bands: Seq<WalkSeg>, sources: Seq<u64>, answers: Seq<FitAnswer>, n: int) -> Seq<u64>
    decreases n,
{
    if n <= 0 {
        Seq::empty()
    } else {
        let rest = kept_sources(bands, sources, answers, n - 1);
        if fitted(bands[n - 1], answers[n - 1]) is Some {
            rest.push(source_at(sources, n - 1))
        } else {
            rest
        }
    }
}

pub open spec fn any_at_grade(bands: Seq<WalkSeg>) -> bool {
    exists|i: int| 0 <= i < bands.len() && (#[trigger] bands[i]).level == 0
}

pub open spec fn all_unified(bands: Seq<WalkSeg>, sources: Seq<u64>) -> Seq<WalkSeg> {
    Seq::new(bands.len(), |i: int| unified(bands, sources, i))
}

pub open spec fn all_tapered(bands: Seq<WalkSeg>) -> Seq<WalkSeg> {
    Seq::new(bands.len(), |i: int| tapered(bands, i))
}

proof fn lemma_kept(bands: Seq<WalkSeg>, sources: Seq<u64>, answers: Seq<FitAnswer>, n: int)
    requires
        0 <= n <= bands.len(),
    ensures
        kept_bands(bands, answers, n).len() == kept_sources(bands, sources, answers, n).len(),
        kept_bands(bands, answers, n).len() <= n,
    decreases n,
{
    if n > 0 {
        lemma_kept(bands, sources, answers, n - 1);
    }
}

/// Narrows every at-grade band to the width the ground under it can carry,
/// drops the ones left with none, and makes the width one along each way and
/// continuous along each run. Segments and sources are dropped in lockstep, so
/// a way whose every segment is declined leaves the list entirely.
pub fn fit_to_ground(bands: &mut Vec<WalkSeg>, sources: &mut Vec<u64>, answers: &[FitAnswer])
    requires
        answers@.len() == old(bands)@.len(),
    ensures
        ({
            let n = old(bands)@.len() as int;
            let kept = kept_bands(old(bands)@, answers@, n);
            let from = kept_sources(old(bands)@, old(sources)@, answers@, n);
            if any_at_grade(old(bands)@) {
                &&& final(sources)@ == from
                &&& final(bands)@ == all_tapered(all_unified(kept, from))
            } else {
                &&& final(sources)@ == Seq::new(old(bands)@.len(), |i: int| source_at(old(sources)@, i))
                &&& final(bands)@ == old(bands)@
            }
        }),
{
    let n: usize = bands.len();
    let mut all: Vec<u64> = Vec::new();
    let mut kept: Vec<WalkSeg> = Vec::new();
    let mut from: Vec<u64> = Vec::new();
    let mut grade: bool = false;
    let mut i: usize = 0;
    while i < n
        invariant
            i <= n,
            n == bands@.len(),
            bands@ == old(bands)@,
            sources@ == old(sources)@,
            answers@.len() == n,
            all@ == Seq::new(i as nat, |k: int| source_at(sources@, k)),
            kept@ == kept_bands(bands@, answers@, i as int),
            from@ == kept_sources(bands@, sources@, answers@, i as int),
            grade == exists|k: int| 0 <= k < i && (#[trigger] bands@[k]).level == 0,
        decreases n - i,
    {
        let source: u64 = if i < sources.len() { sources[i] } else { 0 };
        all.push(source);
        assert(all@ =~= Seq::new((i + 1) as nat, |k: int| source_at(sources@, k)));
        let mut s: WalkSeg = bands[i];
        let f: FitAnswer = answers[i];
        if s.level != 0 {
            kept.push(s);
            from.push(source);
        } else {
            assert(bands@[i as int].level == 0);
            grade = true;
            if let Some(half) = f.half {
                if s.corridor == NO_HOST {
                    if let Some((ha, hb)) = f.ends {
                        s.height_a = ha;
                        s.height_b = hb;
                    }
                }
                if half < s.reach_a {
                    s.reach_a = half;
                }
                if half < s.reach_b {
                    s.reach_b = half;
                }
                kept.push(s);
                from.push(source);
            }
        }
        i = i + 1;
    }
    if !grade {
        *sources = all;
        return;
    }
    proof {
        lemma_kept(bands@, sources@, answers@, n as int);
    }
    let ghost narrowed = kept@;
    unify_width_along_ways(&mut kept, &from);
    assert(kept@ =~= all_unified(narrowed, from@));
    let ghost even = kept@;
    taper_along_runs(&mut kept);
    assert(kept@ =~= all_tapered(even));
    *bands = kept;
    *sources = from;
}

/// A fitted band gives width up and never takes it.
pub proof fn a_fitted_band_is_no_wider(s: WalkSeg, f: FitAnswer)
    ensures
        match fitted(s, f) {
            Some(t) => t.reach_a <= s.reach_a && t.reach_b <= s.reach_b && t.half == s.half,
            None => s.level == 0 && f.half is None,
        },
{
}

} // verus!
