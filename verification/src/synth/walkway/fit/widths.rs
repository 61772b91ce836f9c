//! How wide a band comes out of its fit.
use vstd::prelude::*;

use crate::arith::{a_mean_is_rounded_down, total};
use crate::synth::walkgraph::NO_HOST;
use crate::synth::walkway::fit::{
    face_of, face_offset, face_steps, fit_answered, fit_begun, fitted, kept_bands, kept_sources, least, length_at,
    lemma_face_of, lemma_main_width, main_width, narrowed, nominal, priors_fit, seat_height, seg_fits, source_at,
    tapered, unified, votes, width_key, FaceProbe, FitAnswer, FitPriors, FitStep,
};
use crate::synth::walkway::{drawn_half, Surface, WalkSeg};

verus! {

proof fn lemma_some_face(target: int, heights: Seq<(i64, i64)>, n: int)
    requires
        0 <= n <= heights.len(),
    ensures
        face_of(target, heights, n) >= 0,
        face_of(target, heights, n) == 0 || exists|k: int|
            0 <= k < n && (apart_by(target, (#[trigger] heights[k]).0 as int, face_of(target, heights, n)) || apart_by(
                target,
                heights[k].1 as int,
                face_of(target, heights, n),
            )),
    decreases n,
{
    if n > 0 {
        lemma_some_face(target, heights, n - 1);
        let f = face_of(target, heights, n);
        if f != face_of(target, heights, n - 1) {
            assert(apart_by(target, heights[n - 1].0 as int, f) || apart_by(target, heights[n - 1].1 as int, f));
        } else if f != 0 {
            let k = choose|k: int|
                0 <= k < n - 1 && (apart_by(target, (#[trigger] heights[k]).0 as int, f) || apart_by(
                    target,
                    heights[k].1 as int,
                    f,
                ));
            assert(apart_by(target, heights[k].0 as int, f) || apart_by(target, heights[k].1 as int, f));
        }
    }
}

/// Whether two heights are exactly so far apart.
pub open spec fn apart_by(a: int, b: int, d: int) -> bool {
    a - b == d || b - a == d
}

/// The face of a band is the furthest any height read across it, on either
/// side, stands from its seat.
pub proof fn a_face_is_the_deepest_deviation(target: int, heights: Seq<(i64, i64)>, k: int)
    ensures
        0 <= k < heights.len() ==> {
            let f = face_of(target, heights, heights.len() as int);
            &&& -f <= target - heights[k].0 <= f
            &&& -f <= target - heights[k].1 <= f
        },
        heights.len() == 0 ==> face_of(target, heights, 0) == 0,
        ({
            let f = face_of(target, heights, heights.len() as int);
            f == 0 || exists|k: int|
                0 <= k < heights.len() && (apart_by(target, (#[trigger] heights[k]).0 as int, f) || apart_by(
                    target,
                    heights[k].1 as int,
                    f,
                ))
        }),
{
    let n = heights.len() as int;
    lemma_some_face(target, heights, n);
    if 0 <= k < n {
        lemma_face_of(target, heights, n, k);
    }
}

/// A face is read out to its full half width, no two points on a side more than
/// three quarters of a metre apart.
pub proof fn a_face_is_read_all_the_way_out(w: int, k: int)
    requires
        0 <= w,
        0 <= k < face_steps(w),
    ensures
        face_steps(w) >= 1,
        face_offset(w, 0) == 0,
        face_offset(w, face_steps(w)) == w,
        0 <= face_offset(w, k + 1) - face_offset(w, k) <= 750_000,
{
    let n = face_steps(w);
    assert(w <= n * 750_000) by {
        let q = (w + 750_000 - 1) / 750_000;
        assert(q * 750_000 > w + 750_000 - 1 - 750_000);
    }
    assert(w * 0 / n == 0) by (nonlinear_arith)
        requires
            n >= 1,
    ;
    assert(w * n / n == w) by (nonlinear_arith)
        requires
            n >= 1,
    ;
    let a = w * k;
    let b = w * (k + 1);
    assert(b == a + w) by (nonlinear_arith)
        requires
            a == w * k,
            b == w * (k + 1),
    ;
    assert(0 <= b / n - a / n <= 750_000) by (nonlinear_arith)
        requires
            n >= 1,
            b == a + w,
            0 <= w <= n * 750_000,
    ;
}

/// How a fit begins: a segment without a length keeps its width; a hostless
/// pavement that falls further from end to end than a step and half its length
/// gets none; every other is read at the bench it asks for, against the middle
/// of its ends' ground or of its own heights.
pub proof fn a_fit_begins_at_the_full_bench(s: WalkSeg, ends: Option<(i64, i64)>, p: FitPriors)
    requires
        seg_fits(s),
        priors_fit(p),
    ensures
        ({
            let wall = ends matches Some(e) && s.surface == Surface::Walkway && (e.0 - e.1 > 1_500_000 || e.1 - e.0
                > 1_500_000) && (2 * (e.0 - e.1) > s.length || 2 * (e.1 - e.0) > s.length);
            let widest = if s.reach_a < s.reach_b {
                s.reach_b
            } else {
                s.reach_a
            };
            &&& s.length == 0 ==> fit_begun(s, ends, p) == (FitStep::Done { half: Some(widest) })
            &&& s.length > 0 && wall ==> fit_begun(s, ends, p) == (FitStep::Done { half: None })
            &&& s.length > 0 && !wall ==> {
                &&& fit_begun(s, ends, p) is Probe
                &&& fit_begun(s, ends, p)->face.width == widest + p.verge
                &&& !fit_begun(s, ends, p)->face.narrowed
                &&& ends matches Some(e) ==> 2 * fit_begun(s, ends, p)->face.target <= e.0 + e.1 < 2 * fit_begun(
                    s,
                    ends,
                    p,
                )->face.target + 2
                &&& ends is None ==> 2 * fit_begun(s, ends, p)->face.target <= s.height_a + s.height_b < 2 * fit_begun(
                    s,
                    ends,
                    p,
                )->face.target + 2
            }
        }),
{
    match ends {
        Some(e) => {
            a_mean_is_rounded_down(e.0 + e.1, 2);
        },
        None => {
            a_mean_is_rounded_down(s.height_a + s.height_b, 2);
        },
    }
    assert(i64::MIN <= seat_height(s, ends) <= i64::MAX);
}

/// How a fit goes on: a face within the allowance keeps the width it was read
/// at; a first one past it is read again, narrower; a second one past it gets
/// none.
pub proof fn a_fit_narrows_once(s: WalkSeg, p: FitPriors, f: FaceProbe, heights: Seq<(i64, i64)>)
    requires
        seg_fits(s),
        priors_fit(p),
        f.narrowed ==> p.verge <= f.width,
    ensures
        ({
            let rise = face_of(f.target as int, heights, heights.len() as int);
            let widest = if s.reach_a < s.reach_b {
                s.reach_b
            } else {
                s.reach_a
            };
            let next = fit_answered(s, p, f, heights);
            &&& rise <= p.cap && !f.narrowed ==> next == (FitStep::Done { half: Some(widest) })
            &&& rise <= p.cap && f.narrowed ==> next == (FitStep::Done { half: Some((f.width - p.verge) as u64) })
            &&& rise > p.cap && f.narrowed ==> next == (FitStep::Done { half: None })
            &&& rise > p.cap && !f.narrowed ==> {
                &&& next is Probe
                &&& next->face.narrowed
                &&& next->face.target == f.target
                &&& next->face.width <= widest + p.verge
                &&& next->face.width >= widest + p.verge || next->face.width >= p.min_width / 2 + p.verge
                &&& next->face.width > p.min_width / 2 + p.verge ==> 100 * (next->face.width * rise) <= 85 * ((widest
                    + p.verge) * p.cap)
            }
        }),
{
    let rise = face_of(f.target as int, heights, heights.len() as int);
    if rise > p.cap && !f.narrowed {
        let w = nominal(s, p);
        let d = 100 * rise;
        let top = w * p.cap * 85;
        let raw = top / d;
        assert(raw * d <= top) by (nonlinear_arith)
            requires
                d > 0,
                raw == top / d,
        ;
        let got = narrowed(s, p, rise);
        assert(got <= w);
        assert(least(s, p) <= got);
        if got > p.min_width / 2 + p.verge {
            assert(got <= raw);
            assert(got * rise <= raw * rise) by (nonlinear_arith)
                requires
                    got <= raw,
                    rise >= 0,
            ;
            assert(raw * (100 * rise) == 100 * (raw * rise)) by (nonlinear_arith);
            assert(w * p.cap * 85 == 85 * (w * p.cap)) by (nonlinear_arith);
        }
    }
}

// ---------------------------------------------------------------------------
// One width along a way.
// ---------------------------------------------------------------------------

/// Whether a segment of a way counts towards a width: hostless, of that way,
/// and drawn at that width to the nearest millimetre.
pub open spec fn counts(bands: Seq<WalkSeg>, sources: Seq<u64>, source: u64, key: u64, i: int) -> bool {
    &&& source != 0
    &&& sources[i] == source
    &&& bands[i].corridor == NO_HOST
    &&& 1000 * key <= drawn_half(bands[i]) + 500 < 1000 * key + 1000
}

/// The length of a way at a width is that of its segments drawn at it.
pub proof fn a_width_carries_the_segments_drawn_at_it(bands: Seq<WalkSeg>, sources: Seq<u64>, source: u64, key: u64, lengths: Seq<int>)
    requires
        lengths.len() == bands.len(),
        forall|i: int| 0 <= i < bands.len() ==> (#[trigger] bands[i]).reach_a < u64::MAX - 500 && bands[i].reach_b < u64::MAX - 500,
        forall|i: int|
            0 <= i < bands.len() ==> #[trigger] lengths[i] == if counts(bands, sources, source, key, i) {
                bands[i].length as int
            } else {
                0
            },
    ensures
        length_at(bands, sources, source, key, bands.len() as int) == total(lengths),
{
    lemma_length_at(bands, sources, source, key, lengths, bands.len() as int);
    assert(lengths.take(bands.len() as int) =~= lengths);
}

proof fn lemma_length_at(bands: Seq<WalkSeg>, sources: Seq<u64>, source: u64, key: u64, lengths: Seq<int>, n: int)
    requires
        0 <= n <= bands.len() == lengths.len(),
        forall|i: int| 0 <= i < bands.len() ==> (#[trigger] bands[i]).reach_a < u64::MAX - 500 && bands[i].reach_b < u64::MAX - 500,
        forall|i: int|
            0 <= i < bands.len() ==> #[trigger] lengths[i] == if counts(bands, sources, source, key, i) {
                bands[i].length as int
            } else {
                0
            },
    ensures
        length_at(bands, sources, source, key, n) == total(lengths.take(n)),
    decreases n,
{
    if n > 0 {
        lemma_length_at(bands, sources, source, key, lengths, n - 1);
        assert(lengths.take(n).drop_last() =~= lengths.take(n - 1));
        assert(lengths.take(n).last() == lengths[n - 1]);
        let h = drawn_half(bands[n - 1]);
        assert(bands[n - 1].reach_a < u64::MAX - 500 && bands[n - 1].reach_b < u64::MAX - 500);
        assert(width_key(h) == (h + 500) / 1000);
        assert(votes(bands, sources, source, n - 1) && width_key(h) == key <==> counts(
            bands,
            sources,
            source,
            key,
            n - 1,
        ));
    }
}

/// The width a way is drawn at is one of its own, carries at least as much of it
/// as any other, and is the widest of those that carry as much.
pub proof fn the_main_width_is_the_widest_of_the_longest(bands: Seq<WalkSeg>, sources: Seq<u64>, source: u64, i: int)
    requires
        0 <= i < bands.len(),
        votes(bands, sources, source, i),
    ensures
        ({
            let n = bands.len() as int;
            let key = main_width(bands, sources, source, n)->0;
            let other = width_key(drawn_half(bands[i]));
            &&& main_width(bands, sources, source, n) is Some
            &&& length_at(bands, sources, source, other, n) <= length_at(bands, sources, source, key, n)
            &&& length_at(bands, sources, source, other, n) == length_at(bands, sources, source, key, n) ==> other <= key
            &&& exists|j: int|
                0 <= j < n && votes(bands, sources, source, j) && width_key(drawn_half(#[trigger] bands[j])) == key
        }),
{
    lemma_main_width(bands, sources, source, bands.len() as int);
    assert(votes(bands, sources, source, i));
    assert(width_key(drawn_half(bands[i])) == width_key(drawn_half(bands[i])));
}

/// A segment of a way has a say in its width where it is hostless and the way is
/// named.
pub proof fn only_hostless_segments_have_a_say(bands: Seq<WalkSeg>, sources: Seq<u64>, source: u64, i: int)
    ensures
        votes(bands, sources, source, i) <==> source != 0 && sources[i] == source && bands[i].corridor == NO_HOST,
{
}

/// A hostless segment comes out no wider than its way's width at either end, and
/// as wide as it was where it was narrower; nothing else of it changes.
pub proof fn a_segment_is_cut_down_to_its_ways_width(bands: Seq<WalkSeg>, sources: Seq<u64>, i: int)
    requires
        0 <= i < bands.len(),
        bands[i].corridor == NO_HOST,
        sources[i] != 0,
        main_width(bands, sources, sources[i], bands.len() as int) is Some,
        1000 * main_width(bands, sources, sources[i], bands.len() as int)->0 <= u64::MAX,
    ensures
        ({
            let s = bands[i];
            let t = unified(bands, sources, i);
            let half = 1000 * main_width(bands, sources, sources[i], bands.len() as int)->0;
            &&& s.reach_a <= half ==> t.reach_a == s.reach_a
            &&& s.reach_a > half ==> t.reach_a == half
            &&& s.reach_b <= half ==> t.reach_b == s.reach_b
            &&& s.reach_b > half ==> t.reach_b == half
            &&& t == (WalkSeg { reach_a: t.reach_a, reach_b: t.reach_b, ..s })
        }),
{
}

/// A segment of no named way keeps its width.
pub proof fn a_segment_of_no_way_keeps_its_width(bands: Seq<WalkSeg>, sources: Seq<u64>, i: int)
    requires
        0 <= i < bands.len(),
        sources[i] == 0 || bands[i].corridor != NO_HOST,
    ensures
        unified(bands, sources, i) == bands[i],
{
    lemma_main_width(bands, sources, sources[i], bands.len() as int);
}

/// Whether one segment goes on as the next.
pub open spec fn runs_on(a: WalkSeg, b: WalkSeg) -> bool {
    &&& a.surface != Surface::Other
    &&& b.surface == a.surface
    &&& b.level == a.level
    &&& b.layer == a.layer
    &&& b.corridor == a.corridor
    &&& b.a == a.b
}

/// Where one segment goes on as the next both take the narrower of the two
/// widths there; where none does, an end keeps its own. Nothing else changes.
pub proof fn only_what_runs_on_is_tapered(bands: Seq<WalkSeg>, i: int)
    requires
        0 <= i < bands.len(),
    ensures
        ({
            let s = bands[i];
            let t = tapered(bands, i);
            let before = i > 0 && runs_on(bands[i - 1], s);
            let after = i + 1 < bands.len() && runs_on(s, bands[i + 1]);
            &&& before && bands[i - 1].reach_b < s.reach_a ==> t.reach_a == bands[i - 1].reach_b
            &&& !before || bands[i - 1].reach_b >= s.reach_a ==> t.reach_a == s.reach_a
            &&& after && bands[i + 1].reach_a < s.reach_b ==> t.reach_b == bands[i + 1].reach_a
            &&& !after || bands[i + 1].reach_a >= s.reach_b ==> t.reach_b == s.reach_b
            &&& t == (WalkSeg { reach_a: t.reach_a, reach_b: t.reach_b, ..s })
        }),
{
}

// ---------------------------------------------------------------------------
// What is kept.
// ---------------------------------------------------------------------------

/// A segment off the ground is left alone. One on it is cut down to the half
/// width its fit came to, or dropped where it came to none, and takes the ground
/// under its ends where no street hosts it.
pub proof fn a_fitted_band_takes_what_the_ground_allows(s: WalkSeg, f: FitAnswer)
    ensures
        s.level != 0 ==> fitted(s, f) == Some(s),
        s.level == 0 && f.half is None ==> fitted(s, f) is None,
        s.level == 0 ==> (f.half matches Some(half) ==> {
            &&& fitted(s, f) is Some
            &&& ({
                let t = fitted(s, f)->0;
                &&& t.reach_a == if half < s.reach_a {
                    half
                } else {
                    s.reach_a
                }
                &&& t.reach_b == if half < s.reach_b {
                    half
                } else {
                    s.reach_b
                }
                &&& s.corridor == NO_HOST && f.ends is Some ==> t.height_a == (f.ends->0).0 && t.height_b == (f.ends->0).1
                &&& s.corridor != NO_HOST || f.ends is None ==> t.height_a == s.height_a && t.height_b == s.height_b
                &&& t == (WalkSeg {
                    reach_a: t.reach_a,
                    reach_b: t.reach_b,
                    height_a: t.height_a,
                    height_b: t.height_b,
                    ..s
                })
            })
        }),
{
}

/// How many of the first `n` segments are dropped.
pub open spec fn dropped(bands: Seq<WalkSeg>, answers: Seq<FitAnswer>, n: int) -> int
    decreases n,
{
    if n <= 0 {
        0
    } else {
        dropped(bands, answers, n - 1) + if bands[n - 1].level == 0 && answers[n - 1].half is None {
            1int
        } else {
            0
        }
    }
}

/// Segments and sources are dropped in lockstep: every segment kept stands where
/// the ones dropped before it left it, beside its own source.
pub proof fn segments_and_sources_are_kept_in_lockstep(bands: Seq<WalkSeg>, sources: Seq<u64>, answers: Seq<FitAnswer>, n: int, i: int)
    requires
        0 <= i < n <= bands.len(),
    ensures
        kept_bands(bands, answers, n).len() == n - dropped(bands, answers, n),
        kept_sources(bands, sources, answers, n).len() == n - dropped(bands, answers, n),
        fitted(bands[i], answers[i]) matches Some(t) ==> {
            let k = i - dropped(bands, answers, i);
            &&& 0 <= k < n - dropped(bands, answers, n)
            &&& kept_bands(bands, answers, n)[k] == t
            &&& kept_sources(bands, sources, answers, n)[k] == source_at(sources, i)
        },
    decreases n,
{
    lemma_kept_counts(bands, sources, answers, n);
    lemma_kept_counts(bands, sources, answers, i);
    if i < n - 1 {
        segments_and_sources_are_kept_in_lockstep(bands, sources, answers, n - 1, i);
    }
}

proof fn lemma_kept_counts(bands: Seq<WalkSeg>, sources: Seq<u64>, answers: Seq<FitAnswer>, n: int)
    requires
        0 <= n <= bands.len(),
    ensures
        kept_bands(bands, answers, n).len() == n - dropped(bands, answers, n),
        kept_sources(bands, sources, answers, n).len() == n - dropped(bands, answers, n),
    decreases n,
{
    if n > 0 {
        lemma_kept_counts(bands, sources, answers, n - 1);
    }
}

} // verus!
