//! Taking stock of the bands: what became of the extent the data claimed, how
//! wide the drawn surfaces are, and whether one way is drawn as one kind of
//! thing.
use std::collections::HashMap;
use vstd::prelude::*;
use vstd::std_specs::hash::*;
use crate::arith::{max, min};
use crate::synth::walkgraph::NO_HOST;
use crate::synth::walkway::claims::{covered, SideClaims, Sides};
use crate::synth::walkway::strips::{
    all_strips, claims_of, reading_stops, run_fits, run_stops, run_strips, side_spans, side_strips, street_fits,
    street_strips, strip_at, RunReading, StreetReading, Strip, StripPriors,
};
use crate::synth::walkway::{drawn_half, Surface, WalkSeg};

pub mod stock;

verus! {

/// A total raised by another, short of what it can hold.
pub open spec fn more(total: u128, by: u128) -> u128 {
    if total + by <= u128::MAX {
        (total + by) as u128
    } else {
        u128::MAX
    }
}

fn raise(total: u128, by: u128) -> (out: u128)
    ensures
        out == more(total, by),
{
    if by <= u128::MAX - total {
        total + by
    } else {
        u128::MAX
    }
}

// ---------------------------------------------------------------------------
// What became of the claimed extent.
// ---------------------------------------------------------------------------

/// What became of the extent the data claimed, in micrometres of street arc.
#[derive(Clone, Copy, Debug, PartialEq, Eq, Structural)]
pub struct AttachCensus {
    /// Claimed extent, merged.
    pub claimed: u128,
    /// Claimed along a street that draws no width at all.
    pub no_width: u128,
    /// Claimed where the street is not on the ground.
    pub non_grade: u128,
    /// Owed where the room left less than a strip worth drawing.
    pub narrow: u128,
    /// Drawn as a strip.
    pub built: u128,
}

/// How far `[a, b]` reaches into `[from, to]`.
pub open spec fn shared(a: i64, b: i64, from: i64, to: i64) -> u128 {
    max(min(b as int, to as int) - max(a as int, from as int), 0) as u128
}

/// A total raised by how far each of the first `n` stretches reaches into
/// `[from, to]`.
pub open spec fn overlaid(total: u128, spans: Seq<(i64, i64)>, from: i64, to: i64, n: int) -> u128
    decreases n,
{
    if n <= 0 {
        total
    } else {
        more(overlaid(total, spans, from, to, n - 1), shared(spans[n - 1].0, spans[n - 1].1, from, to))
    }
}

/// How much of the claimed extent on either side of a street falls in
/// `[from, to]`.
pub fn overlap(left: &Vec<(i64, i64)>, right: &Vec<(i64, i64)>, from: i64, to: i64) -> (out: u128)
    ensures
        out == overlaid(
            overlaid(0, left@, from, to, left@.len() as int),
            right@,
            from,
            to,
            right@.len() as int,
        ),
{
    let below: u128 = overlay(0, left, from, to);
    overlay(below, right, from, to)
}

fn overlay(total: u128, spans: &Vec<(i64, i64)>, from: i64, to: i64) -> (out: u128)
    ensures
        out == overlaid(total, spans@, from, to, spans@.len() as int),
{
    let mut out: u128 = total;
    let mut i: usize = 0;
    while i < spans.len()
        invariant
            i <= spans@.len(),
            out == overlaid(total, spans@, from, to, i as int),
        decreases spans@.len() - i,
    {
        let (a, b) = spans[i];
        let hi: i64 = if b < to { b } else { to };
        let lo: i64 = if a < from { from } else { a };
        let by: u128 = if hi > lo { (hi as i128 - lo as i128) as u128 } else { 0 };
        out = raise(out, by);
        i = i + 1;
    }
    out
}

/// What the segment after stop `i` of one side of a run adds: it is drawn, or
/// the room ran out, or nothing was owed there.
pub open spec fn segment_counted(c: AttachCensus, sides: Sides, s: StreetReading, run: int, side: int, i: int, p: StripPriors) -> AttachCensus {
    let r = s.runs@[run];
    let stops = reading_stops(sides, s, r, p);
    let length = shared(stops[i], stops[i + 1], i64::MIN, i64::MAX);
    if strip_at(sides, s, run, side, i, p) is Some {
        AttachCensus { built: more(c.built, length), ..c }
    } else if s.synth || covered(side_spans(sides, s.id, side as u8, p.corner as int), stops[i] + stops[i + 1]) {
        AttachCensus { narrow: more(c.narrow, length), ..c }
    } else {
        c
    }
}

pub open spec fn side_counted(c: AttachCensus, sides: Sides, s: StreetReading, run: int, side: int, p: StripPriors, n: int) -> AttachCensus
    decreases n,
{
    if n <= 0 {
        c
    } else {
        segment_counted(side_counted(c, sides, s, run, side, p, n - 1), sides, s, run, side, n - 1, p)
    }
}

/// What one run of a street adds.
pub open spec fn run_counted(c: AttachCensus, sides: Sides, s: StreetReading, run: int, p: StripPriors) -> AttachCensus {
    let r = s.runs@[run];
    let left = side_spans(sides, s.id, 0, p.corner as int);
    let right = side_spans(sides, s.id, 1, p.corner as int);
    let n = reading_stops(sides, s, r, p).len() - 1;
    if r.run.grade {
        side_counted(side_counted(c, sides, s, run, 0, p, n), sides, s, run, 1, p, n)
    } else {
        AttachCensus {
            non_grade: more(
                c.non_grade,
                overlaid(
                    overlaid(0, left, r.run.from, r.run.to, left.len() as int),
                    right,
                    r.run.from,
                    r.run.to,
                    right.len() as int,
                ),
            ),
            ..c
        }
    }
}

pub open spec fn runs_counted(c: AttachCensus, sides: Sides, s: StreetReading, p: StripPriors, n: int) -> AttachCensus
    decreases n,
{
    if n <= 0 {
        c
    } else {
        run_counted(runs_counted(c, sides, s, p, n - 1), sides, s, n - 1, p)
    }
}

/// The extent claimed along a street.
pub open spec fn claimed_extent(sides: Sides, s: StreetReading, p: StripPriors) -> u128 {
    let left = side_spans(sides, s.id, 0, p.corner as int);
    let right = side_spans(sides, s.id, 1, p.corner as int);
    overlaid(
        overlaid(0, left, i64::MIN, i64::MAX, left.len() as int),
        right,
        i64::MIN,
        i64::MAX,
        right.len() as int,
    )
}

/// What one street adds.
pub open spec fn street_counted(c: AttachCensus, sides: Sides, s: StreetReading, p: StripPriors) -> AttachCensus {
    let extent = claimed_extent(sides, s, p);
    let claimed = AttachCensus { claimed: more(c.claimed, extent), ..c };
    if s.half is None {
        AttachCensus { no_width: more(c.no_width, extent), ..claimed }
    } else {
        runs_counted(claimed, sides, s, p, s.runs@.len() as int)
    }
}

/// What the first `n` streets add.
pub open spec fn streets_counted(c: AttachCensus, sides: Sides, streets: Seq<StreetReading>, p: StripPriors, n: int) -> AttachCensus
    decreases n,
{
    if n <= 0 {
        c
    } else {
        street_counted(streets_counted(c, sides, streets, p, n - 1), sides, streets[n - 1], p)
    }
}

pub open spec fn nothing_counted() -> AttachCensus {
    AttachCensus { claimed: 0, no_width: 0, non_grade: 0, narrow: 0, built: 0 }
}

/// Shares of the claimed extent, in thousandths.
#[derive(Clone, Copy, Debug, PartialEq, Eq, Structural)]
pub struct Shares {
    pub built: u128,
    pub no_width: u128,
    pub non_grade: u128,
    pub narrow: u128,
}

/// A part of a whole, in thousandths. Parts too long to scale up scale the
/// whole down instead.
pub open spec fn thousandths(part: u128, whole: u128) -> u128 {
    if part <= u128::MAX / 1000 {
        ((part * 1000) / (whole as int)) as u128
    } else {
        (part / ((whole / 1000 + 1) as u128)) as u128
    }
}

fn share_of(part: u128, whole: u128) -> (out: u128)
    requires
        whole > 0,
    ensures
        out == thousandths(part, whole),
{
    if part <= u128::MAX / 1000 {
        part * 1000 / whole
    } else {
        part / (whole / 1000 + 1)
    }
}

impl AttachCensus {
    /// Counts one side of a run.
    fn count_side(&mut self, sides: &Sides, s: &StreetReading, run: usize, side: u8, stops: &Vec<i64>, claims: &SideClaims, p: &StripPriors)
        requires
            run < s.runs@.len(),
            s.runs@[run as int].run.grade,
            run_fits(*sides, *s, s.runs@[run as int], *p),
            side < 2,
            stops@ == reading_stops(*sides, *s, s.runs@[run as int], *p),
            stops@.len() > 0,
            claims.spans@ == side_spans(*sides, s.id, side, p.corner as int),
        ensures
            *final(self) == side_counted(*old(self), *sides, *s, run as int, side as int, *p, stops@.len() - 1),
    {
        let r: &RunReading = &s.runs[run];
        let mut i: usize = 0;
        while i < stops.len() - 1
            invariant
                i <= stops@.len() - 1,
                run < s.runs@.len(),
                *r == s.runs@[run as int],
                r.run.grade,
                run_fits(*sides, *s, *r, *p),
                side < 2,
                stops@ == reading_stops(*sides, *s, *r, *p),
                stops@.len() > 0,
                claims.spans@ == side_spans(*sides, s.id, side, p.corner as int),
                *self == side_counted(*old(self), *sides, *s, run as int, side as int, *p, i as int),
            decreases stops@.len() - 1 - i,
        {
            let owed: bool = s.synth || claims.covers_middle(stops[i], stops[i + 1]);
            let wa: i64 = if side == 0 { r.walk[i].0 } else { r.walk[i].1 };
            let wb: i64 = if side == 0 { r.walk[i + 1].0 } else { r.walk[i + 1].1 };
            let (a, b) = (stops[i], stops[i + 1]);
            let length: u128 = if b > a { (b as i128 - a as i128) as u128 } else { 0 };
            assert(length == shared(a, b, i64::MIN, i64::MAX));
            if owed && wa > 0 && wb > 0 {
                self.built = raise(self.built, length);
            } else if owed {
                self.narrow = raise(self.narrow, length);
            }
            i = i + 1;
        }
    }

    /// Counts one street.
    fn count_street(&mut self, sides: &Sides, s: &StreetReading, p: &StripPriors)
        requires
            street_fits(*sides, *s, *p),
        ensures
            *final(self) == street_counted(*old(self), *sides, *s, *p),
    {
        let left: SideClaims = claims_of(sides, s.id, 0, p.corner);
        let right: SideClaims = claims_of(sides, s.id, 1, p.corner);
        let extent: u128 = overlap(&left.spans, &right.spans, i64::MIN, i64::MAX);
        self.claimed = raise(self.claimed, extent);
        if s.half.is_none() {
            self.no_width = raise(self.no_width, extent);
            return;
        }
        let ghost claimed = *self;
        let mut r: usize = 0;
        while r < s.runs.len()
            invariant
                r <= s.runs@.len(),
                street_fits(*sides, *s, *p),
                left.spans@ == side_spans(*sides, s.id, 0, p.corner as int),
                right.spans@ == side_spans(*sides, s.id, 1, p.corner as int),
                *self == runs_counted(claimed, *sides, *s, *p, r as int),
            decreases s.runs@.len() - r,
        {
            assert(run_fits(*sides, *s, s.runs@[r as int], *p));
            let reading: &RunReading = &s.runs[r];
            if reading.run.grade {
                let stops: Vec<i64> = run_stops(&reading.run, &reading.arcs, &left.spans, &right.spans, p.eps);
                self.count_side(sides, s, r, 0, &stops, &left, p);
                self.count_side(sides, s, r, 1, &stops, &right, p);
            } else {
                let lost: u128 = overlap(&left.spans, &right.spans, reading.run.from, reading.run.to);
                self.non_grade = raise(self.non_grade, lost);
            }
            r = r + 1;
        }
    }

    /// What became of everything claimed along the streets.
    pub fn of(sides: &Sides, streets: &[StreetReading], p: &StripPriors) -> (out: AttachCensus)
        requires
            forall|i: int| 0 <= i < streets@.len() ==> street_fits(*sides, #[trigger] streets@[i], *p),
        ensures
            out == streets_counted(nothing_counted(), *sides, streets@, *p, streets@.len() as int),
    {
        let mut out = AttachCensus { claimed: 0, no_width: 0, non_grade: 0, narrow: 0, built: 0 };
        let mut i: usize = 0;
        while i < streets.len()
            invariant
                i <= streets@.len(),
                forall|k: int| 0 <= k < streets@.len() ==> street_fits(*sides, #[trigger] streets@[k], *p),
                out == streets_counted(nothing_counted(), *sides, streets@, *p, i as int),
            decreases streets@.len() - i,
        {
            assert(street_fits(*sides, streets@[i as int], *p));
            out.count_street(sides, &streets[i], p);
            i = i + 1;
        }
        out
    }

    /// The shares of the claimed extent, none where nothing was claimed.
    pub fn report(&self) -> (out: Option<Shares>)
        ensures
            out == (if self.claimed > 0 {
                Some(
                    Shares {
                        built: thousandths(self.built, self.claimed),
                        no_width: thousandths(self.no_width, self.claimed),
                        non_grade: thousandths(self.non_grade, self.claimed),
                        narrow: thousandths(self.narrow, self.claimed),
                    },
                )
            } else {
                None
            }),
    {
        if self.claimed > 0 {
            Some(
                Shares {
                    built: share_of(self.built, self.claimed),
                    no_width: share_of(self.no_width, self.claimed),
                    non_grade: share_of(self.non_grade, self.claimed),
                    narrow: share_of(self.narrow, self.claimed),
                },
            )
        } else {
            None
        }
    }
}

/// A total raised by the lengths of the first `n` strips.
pub open spec fn strips_length(total: u128, strips: Seq<Strip>, n: int) -> u128
    decreases n,
{
    if n <= 0 {
        total
    } else {
        more(
            strips_length(total, strips, n - 1),
            shared(strips[n - 1].from, strips[n - 1].to, i64::MIN, i64::MAX),
        )
    }
}

proof fn lemma_strips_length_append(total: u128, a: Seq<Strip>, b: Seq<Strip>, n: int)
    requires
        0 <= n <= b.len(),
    ensures
        strips_length(total, a + b, a.len() + n) == strips_length(strips_length(total, a, a.len() as int), b, n),
    decreases n,
{
    if n == 0 {
        lemma_strips_length_prefix(total, a, a + b, a.len() as int);
    } else {
        lemma_strips_length_append(total, a, b, n - 1);
        assert((a + b)[a.len() + n - 1] == b[n - 1]);
    }
}

proof fn lemma_strips_length_prefix(total: u128, a: Seq<Strip>, b: Seq<Strip>, n: int)
    requires
        0 <= n <= a.len(),
        n <= b.len(),
        forall|i: int| 0 <= i < n ==> a[i] == b[i],
    ensures
        strips_length(total, a, n) == strips_length(total, b, n),
    decreases n,
{
    if n > 0 {
        lemma_strips_length_prefix(total, a, b, n - 1);
        assert(a[n - 1] == b[n - 1]);
    }
}

proof fn lemma_side_built(c: AttachCensus, sides: Sides, s: StreetReading, run: int, side: int, p: StripPriors, n: int)
    requires
        0 <= n,
    ensures
        side_counted(c, sides, s, run, side, p, n).built == strips_length(
            c.built,
            side_strips(sides, s, run, side, p, n),
            side_strips(sides, s, run, side, p, n).len() as int,
        ),
    decreases n,
{
    if n > 0 {
        lemma_side_built(c, sides, s, run, side, p, n - 1);
        let rest = side_strips(sides, s, run, side, p, n - 1);
        match strip_at(sides, s, run, side, n - 1, p) {
            Some(x) => {
                lemma_strips_length_prefix(c.built, rest, rest.push(x), rest.len() as int);
                let stops = reading_stops(sides, s, s.runs@[run], p);
                assert(x.from == stops[n - 1] && x.to == stops[n]);
            },
            None => {},
        }
    }
}

proof fn lemma_run_built(c: AttachCensus, sides: Sides, s: StreetReading, run: int, p: StripPriors)
    requires
        reading_stops(sides, s, s.runs@[run], p).len() > 0,
    ensures
        run_counted(c, sides, s, run, p).built == strips_length(
            c.built,
            run_strips(sides, s, run, p),
            run_strips(sides, s, run, p).len() as int,
        ),
{
    let n = reading_stops(sides, s, s.runs@[run], p).len() - 1;
    if s.runs@[run].run.grade {
        let left = side_strips(sides, s, run, 0, p, n);
        let right = side_strips(sides, s, run, 1, p, n);
        lemma_side_built(c, sides, s, run, 0, p, n);
        lemma_side_built(side_counted(c, sides, s, run, 0, p, n), sides, s, run, 1, p, n);
        lemma_strips_length_append(c.built, left, right, right.len() as int);
    }
}

proof fn lemma_some_stop(sides: Sides, s: StreetReading, r: RunReading, p: StripPriors)
    ensures
        reading_stops(sides, s, r, p).len() > 0,
{
    let left = side_spans(sides, s.id, 0, p.corner as int);
    let right = side_spans(sides, s.id, 1, p.corner as int);
    let at = crate::synth::walkway::strips::stations(r.run, r.arcs@, left, right).push(r.run.to);
    lemma_stops_grow(r.run.from, at, p.eps as int, at.len() as int);
}

proof fn lemma_stops_grow(from: i64, at: Seq<i64>, eps: int, n: int)
    ensures
        crate::synth::walkway::strips::stops_over(from, at, eps, n).len() > 0,
    decreases n,
{
    if n > 0 {
        lemma_stops_grow(from, at, eps, n - 1);
    }
}

proof fn lemma_street_built(c: AttachCensus, sides: Sides, s: StreetReading, p: StripPriors, n: int)
    requires
        0 <= n <= s.runs@.len(),
    ensures
        runs_counted(c, sides, s, p, n).built == strips_length(
            c.built,
            street_strips(sides, s, p, n),
            street_strips(sides, s, p, n).len() as int,
        ),
    decreases n,
{
    if n > 0 {
        lemma_street_built(c, sides, s, p, n - 1);
        let rest = street_strips(sides, s, p, n - 1);
        let next = run_strips(sides, s, n - 1, p);
        lemma_some_stop(sides, s, s.runs@[n - 1], p);
        lemma_run_built(runs_counted(c, sides, s, p, n - 1), sides, s, n - 1, p);
        lemma_strips_length_append(c.built, rest, next, next.len() as int);
    }
}

/// The extent counted as built is the length of the strips that are drawn.
pub proof fn what_is_counted_as_built_is_drawn(sides: Sides, streets: Seq<StreetReading>, p: StripPriors, n: int)
    requires
        0 <= n <= streets.len(),
    ensures
        streets_counted(nothing_counted(), sides, streets, p, n).built == strips_length(
            0,
            all_strips(sides, streets, p, n),
            all_strips(sides, streets, p, n).len() as int,
        ),
    decreases n,
{
    if n > 0 {
        what_is_counted_as_built_is_drawn(sides, streets, p, n - 1);
        let c = streets_counted(nothing_counted(), sides, streets, p, n - 1);
        let s = streets[n - 1];
        let rest = all_strips(sides, streets, p, n - 1);
        if s.half is Some {
            let claimed = AttachCensus { claimed: more(c.claimed, claimed_extent(sides, s, p)), ..c };
            let next = street_strips(sides, s, p, s.runs@.len() as int);
            lemma_street_built(claimed, sides, s, p, s.runs@.len() as int);
            lemma_strips_length_append(0, rest, next, next.len() as int);
        }
    }
}

// ---------------------------------------------------------------------------
// Quantiles.
// ---------------------------------------------------------------------------

/// Where a value goes among the first `n`: behind every one no larger.
pub open spec fn place_of(v: Seq<u128>, x: u128, n: int) -> int
    decreases n,
{
    if n <= 0 {
        0
    } else {
        let before = place_of(v, x, n - 1);
        if before == n - 1 && v[n - 1] <= x {
            n
        } else {
            before
        }
    }
}

/// The first `n` values in ascending order.
pub open spec fn ordered(v: Seq<u128>, n: int) -> Seq<u128>
    decreases n,
{
    if n <= 0 {
        Seq::empty()
    } else {
        let rest = ordered(v, n - 1);
        rest.insert(place_of(rest, v[n - 1], rest.len() as int), v[n - 1])
    }
}

/// The value `tenths` of the way up the ordered values.
pub open spec fn quantile(v: Seq<u128>, tenths: int) -> u128 {
    ordered(v, v.len() as int)[((v.len() - 1) * tenths) / 10]
}

pub open spec fn climbs(v: Seq<u128>) -> bool {
    forall|i: int, j: int| 0 <= i < j < v.len() ==> (#[trigger] v[i]) <= (#[trigger] v[j])
}

proof fn lemma_place_of(v: Seq<u128>, x: u128, n: int)
    requires
        climbs(v),
        0 <= n <= v.len(),
    ensures
        0 <= place_of(v, x, n) <= n,
        forall|i: int| 0 <= i < place_of(v, x, n) ==> (#[trigger] v[i]) <= x,
        forall|i: int| place_of(v, x, n) <= i < n ==> (#[trigger] v[i]) > x,
    decreases n,
{
    if n > 0 {
        lemma_place_of(v, x, n - 1);
        let r = place_of(v, x, n - 1);
        if r < n - 1 {
            assert(v[r] <= v[n - 1]);
        }
    }
}

proof fn lemma_ordered(v: Seq<u128>, n: int)
    requires
        0 <= n <= v.len(),
    ensures
        climbs(ordered(v, n)),
        ordered(v, n).len() == n,
        ordered(v, n).to_multiset() == v.take(n).to_multiset(),
    decreases n,
{
    broadcast use vstd::seq_lib::group_to_multiset_ensures;

    if n == 0 {
        assert(v.take(0) =~= Seq::<u128>::empty());
    } else {
        lemma_ordered(v, n - 1);
        let rest = ordered(v, n - 1);
        let x = v[n - 1];
        lemma_place_of(rest, x, n - 1);
        let r = place_of(rest, x, n - 1);
        let all = ordered(v, n);
        assert forall|i: int, j: int| 0 <= i < j < all.len() implies (#[trigger] all[i]) <= (#[trigger] all[j]) by {
            if i != r {
                assert(all[i] == rest[if i < r {
                    i
                } else {
                    i - 1
                }]);
            }
            if j != r {
                assert(all[j] == rest[if j < r {
                    j
                } else {
                    j - 1
                }]);
            }
        }
        vstd::seq_lib::to_multiset_insert(rest, r, x);
        assert(v.take(n) =~= v.take(n - 1).push(x));
    }
}

/// Ordering the values keeps every one of them.
pub proof fn ordering_keeps_every_value(v: Seq<u128>)
    ensures
        ordered(v, v.len() as int).to_multiset() == v.to_multiset(),
        climbs(ordered(v, v.len() as int)),
{
    lemma_ordered(v, v.len() as int);
    assert(v.take(v.len() as int) =~= v);
}

/// A higher quantile is no smaller, and every value lies between the first and
/// the last.
pub proof fn quantiles_climb(v: Seq<u128>, a: int, b: int, i: int)
    requires
        v.len() > 0,
        0 <= a <= b <= 10,
        0 <= i < v.len(),
    ensures
        quantile(v, a) <= quantile(v, b),
        quantile(v, 0) <= ordered(v, v.len() as int)[i] <= quantile(v, 10),
{
    let n = v.len() as int;
    lemma_ordered(v, n);
    let o = ordered(v, n);
    let last = n - 1;
    let (ia, ib) = ((last * a) / 10, (last * b) / 10);
    assert(0 <= last * a <= last * b <= last * 10) by (nonlinear_arith)
        requires
            0 <= last,
            0 <= a <= b <= 10,
    ;
    assert(0 <= ia <= ib <= last);
    assert(o[ia] <= o[ib]);
    assert(o[0] <= o[i] && o[i] <= o[last]);
}

fn order(v: &Vec<u128>) -> (out: Vec<u128>)
    ensures
        out@ == ordered(v@, v@.len() as int),
        out@.len() == v@.len(),
{
    let mut out: Vec<u128> = Vec::new();
    let mut i: usize = 0;
    while i < v.len()
        invariant
            i <= v@.len(),
            out@ == ordered(v@, i as int),
            out@.len() == i,
        decreases v@.len() - i,
    {
        let x: u128 = v[i];
        let mut place: usize = 0;
        let mut k: usize = 0;
        while k < out.len()
            invariant
                k <= out@.len(),
                place <= k,
                place == place_of(out@, x, k as int),
            decreases out@.len() - k,
        {
            if place == k && out[k] <= x {
                place = k + 1;
            }
            k = k + 1;
        }
        out.insert(place, x);
        i = i + 1;
    }
    out
}

/// How a population of widths is spread.
#[derive(Clone, Copy, Debug, PartialEq, Eq, Structural)]
pub struct Spread {
    pub n: usize,
    pub p10: u128,
    pub p50: u128,
    pub p90: u128,
    pub least: u128,
    pub most: u128,
}

/// The spread of a population, none of an empty one.
pub open spec fn spread_of(v: Seq<u128>) -> Option<Spread> {
    if v.len() == 0 {
        None
    } else {
        Some(
            Spread {
                n: v.len() as usize,
                p10: quantile(v, 1),
                p50: quantile(v, 5),
                p90: quantile(v, 9),
                least: quantile(v, 0),
                most: quantile(v, 10),
            },
        )
    }
}

fn index_of(n: usize, tenths: u8) -> (i: usize)
    requires
        n > 0,
        tenths <= 10,
    ensures
        i == ((n - 1) * tenths) / 10,
        i < n,
{
    assert(0 <= (n - 1) * tenths <= (n - 1) * 10) by (nonlinear_arith)
        requires
            n > 0,
            0 <= tenths <= 10,
    ;
    ((n - 1) as u128 * tenths as u128 / 10) as usize
}

fn spread(v: &Vec<u128>) -> (out: Option<Spread>)
    ensures
        out == spread_of(v@),
{
    let n: usize = v.len();
    if n == 0 {
        return None;
    }
    let o: Vec<u128> = order(v);
    Some(
        Spread {
            n,
            p10: o[index_of(n, 1)],
            p50: o[index_of(n, 5)],
            p90: o[index_of(n, 9)],
            least: o[index_of(n, 0)],
            most: o[index_of(n, 10)],
        },
    )
}

// ---------------------------------------------------------------------------
// The widths of the bands.
// ---------------------------------------------------------------------------

/// What a band is counted among.
#[derive(Clone, Copy, Debug, PartialEq, Eq, Structural)]
pub enum Group {
    /// A walkway along a street.
    Sidewalk,
    /// A walkway no street hosts.
    Hostless,
    /// Anything else.
    Path,
}

pub open spec fn group_of(s: WalkSeg) -> Group {
    if s.surface != Surface::Walkway {
        Group::Path
    } else if s.corridor != NO_HOST {
        Group::Sidewalk
    } else {
        Group::Hostless
    }
}

pub open spec fn drawn_width(s: WalkSeg) -> u128 {
    (2 * drawn_half(s)) as u128
}

/// The widths of the first `n` bands that belong to a group.
pub open spec fn group_widths(bands: Seq<WalkSeg>, g: Group, n: int) -> Seq<u128>
    decreases n,
{
    if n <= 0 {
        Seq::empty()
    } else {
        let rest = group_widths(bands, g, n - 1);
        if group_of(bands[n - 1]) == g {
            rest.push(drawn_width(bands[n - 1]))
        } else {
            rest
        }
    }
}

/// Every band is counted in one group and no other.
pub proof fn every_band_is_in_one_group(bands: Seq<WalkSeg>, n: int)
    requires
        0 <= n <= bands.len(),
    ensures
        group_widths(bands, Group::Sidewalk, n).len() + group_widths(bands, Group::Hostless, n).len() + group_widths(
            bands,
            Group::Path,
            n,
        ).len() == n,
    decreases n,
{
    if n > 0 {
        every_band_is_in_one_group(bands, n - 1);
    }
}

fn widths_of(bands: &Vec<WalkSeg>, g: Group) -> (out: Vec<u128>)
    ensures
        out@ == group_widths(bands@, g, bands@.len() as int),
{
    let mut out: Vec<u128> = Vec::new();
    let mut i: usize = 0;
    while i < bands.len()
        invariant
            i <= bands@.len(),
            out@ == group_widths(bands@, g, i as int),
        decreases bands@.len() - i,
    {
        let s: &WalkSeg = &bands[i];
        let own: Group = if s.surface != Surface::Walkway {
            Group::Path
        } else if s.corridor != NO_HOST {
            Group::Sidewalk
        } else {
            Group::Hostless
        };
        if own == g {
            out.push(2 * s.drawn_half() as u128);
        }
        i = i + 1;
    }
    out
}

// ---------------------------------------------------------------------------
// One way, one kind.
// ---------------------------------------------------------------------------

/// What the bands of one way add up to: the length drawn as each kind, the
/// narrowest and the widest it is drawn, and how many bands it has.
#[derive(Clone, Copy, Debug, PartialEq, Eq, Structural)]
pub struct WayTally {
    pub walkway: u128,
    pub path: u128,
    pub narrowest: u128,
    pub widest: u128,
    pub bands: u64,
}

pub open spec fn narrow_end(s: WalkSeg) -> u128 {
    (2 * min(s.reach_a as int, s.reach_b as int)) as u128
}

/// A tally with one more band in it.
pub open spec fn tallied(t: WayTally, s: WalkSeg) -> WayTally {
    WayTally {
        walkway: if s.surface == Surface::Path {
            t.walkway
        } else {
            more(t.walkway, s.length as u128)
        },
        path: if s.surface == Surface::Path {
            more(t.path, s.length as u128)
        } else {
            t.path
        },
        narrowest: min(t.narrowest as int, narrow_end(s) as int) as u128,
        widest: max(t.widest as int, drawn_width(s) as int) as u128,
        bands: if t.bands < u64::MAX {
            (t.bands + 1) as u64
        } else {
            t.bands
        },
    }
}

pub open spec fn no_tally() -> WayTally {
    WayTally { walkway: 0, path: 0, narrowest: u128::MAX, widest: 0, bands: 0 }
}

/// The tally of a way over the first `n` bands.
pub open spec fn way_tally(bands: Seq<WalkSeg>, sources: Seq<u64>, way: u64, n: int) -> WayTally
    decreases n,
{
    if n <= 0 {
        no_tally()
    } else {
        let rest = way_tally(bands, sources, way, n - 1);
        if sources[n - 1] == way {
            tallied(rest, bands[n - 1])
        } else {
            rest
        }
    }
}

/// The ways the first `n` bands belong to, in the order they are met. Nought
/// is no way.
pub open spec fn ways_of(sources: Seq<u64>, n: int) -> Seq<u64>
    decreases n,
{
    if n <= 0 {
        Seq::empty()
    } else {
        let rest = ways_of(sources, n - 1);
        if sources[n - 1] == 0 || rest.contains(sources[n - 1]) {
            rest
        } else {
            rest.push(sources[n - 1])
        }
    }
}

/// The tallies of the ways, in the same order.
pub open spec fn tallies_of(bands: Seq<WalkSeg>, sources: Seq<u64>, n: int) -> Seq<WayTally> {
    let ways = ways_of(sources, n);
    Seq::new(ways.len(), |k: int| way_tally(bands, sources, ways[k], n))
}

/// How many bands there are that name their way.
pub open spec fn named(bands: Seq<WalkSeg>, sources: Seq<u64>) -> int {
    min(bands.len() as int, sources.len() as int)
}

proof fn lemma_ways_of(sources: Seq<u64>, n: int)
    requires
        0 <= n <= sources.len(),
    ensures
        ways_of(sources, n).no_duplicates(),
        ways_of(sources, n).len() <= n,
        forall|k: int| 0 <= k < ways_of(sources, n).len() ==> (#[trigger] ways_of(sources, n)[k]) != 0,
        forall|i: int| 0 <= i < n && sources[i] != 0 ==> ways_of(sources, n).contains(#[trigger] sources[i]),
    decreases n,
{
    if n > 0 {
        lemma_ways_of(sources, n - 1);
        let rest = ways_of(sources, n - 1);
        let all = ways_of(sources, n);
        let w = sources[n - 1];
        assert forall|i: int| 0 <= i < n && sources[i] != 0 implies all.contains(#[trigger] sources[i]) by {
            if i < n - 1 {
                let k = choose|k: int| 0 <= k < rest.len() && rest[k] == sources[i];
                assert(all[k] == sources[i]);
            } else if !rest.contains(w) {
                assert(all[rest.len() as int] == w);
            }
        }
        assert forall|i: int, j: int| 0 <= i < all.len() && 0 <= j < all.len() && i != j implies all[i] != all[j] by {
            if w != 0 && !rest.contains(w) {
                if i < rest.len() {
                    assert(rest.contains(rest[i]));
                }
                if j < rest.len() {
                    assert(rest.contains(rest[j]));
                }
            }
        }
    }
}

proof fn lemma_unmet_way(bands: Seq<WalkSeg>, sources: Seq<u64>, way: u64, n: int)
    requires
        0 <= n <= sources.len(),
        way != 0,
        !ways_of(sources, n).contains(way),
    ensures
        way_tally(bands, sources, way, n) == no_tally(),
    decreases n,
{
    if n > 0 {
        lemma_ways_of(sources, n);
        assert(sources[n - 1] != way) by {
            if sources[n - 1] == way {
                assert(ways_of(sources, n).contains(sources[n - 1]));
            }
        }
        let rest = ways_of(sources, n - 1);
        assert(!rest.contains(way)) by {
            if rest.contains(way) {
                let k = choose|k: int| 0 <= k < rest.len() && rest[k] == way;
                assert(ways_of(sources, n)[k] == way);
            }
        }
        lemma_unmet_way(bands, sources, way, n - 1);
    }
}

/// Every way a band names is met, and none is met twice.
pub proof fn every_way_is_counted_once(sources: Seq<u64>, n: int)
    requires
        0 <= n <= sources.len(),
    ensures
        ways_of(sources, n).no_duplicates(),
        forall|i: int| 0 <= i < n && sources[i] != 0 ==> ways_of(sources, n).contains(#[trigger] sources[i]),
        !ways_of(sources, n).contains(0),
{
    lemma_ways_of(sources, n);
}

/// The index finds every way met so far.
pub open spec fn finds_ways(index: Map<u64, usize>, ways: Seq<u64>) -> bool {
    &&& forall|k: int| 0 <= k < ways.len() ==> index.contains_key(#[trigger] ways[k]) && index[ways[k]] == k
    &&& forall|w: u64| #[trigger] index.contains_key(w) ==> index[w] < ways.len() && ways[index[w] as int] == w
}

/// Takes a band into a tally.
fn take_in(t: &WayTally, s: &WalkSeg) -> (out: WayTally)
    ensures
        out == tallied(*t, *s),
{
    let path: bool = s.surface == Surface::Path;
    let low: u64 = if s.reach_a < s.reach_b { s.reach_a } else { s.reach_b };
    let low: u128 = 2 * low as u128;
    let high: u128 = 2 * s.drawn_half() as u128;
    WayTally {
        walkway: if path { t.walkway } else { raise(t.walkway, s.length as u128) },
        path: if path { raise(t.path, s.length as u128) } else { t.path },
        narrowest: if low < t.narrowest { low } else { t.narrowest },
        widest: if t.widest < high { high } else { t.widest },
        bands: if t.bands < u64::MAX { t.bands + 1 } else { t.bands },
    }
}

/// The tally of every way.
fn tally_ways(bands: &Vec<WalkSeg>, sources: &Vec<u64>) -> (out: Vec<WayTally>)
    ensures
        out@ == tallies_of(bands@, sources@, named(bands@, sources@)),
{
    broadcast use group_hash_axioms;

    let n: usize = if bands.len() < sources.len() { bands.len() } else { sources.len() };
    let mut index: HashMap<u64, usize> = HashMap::new();
    let mut out: Vec<WayTally> = Vec::new();
    let mut i: usize = 0;
    assert(out@ =~= tallies_of(bands@, sources@, 0));
    while i < n
        invariant
            i <= n,
            n == named(bands@, sources@),
            out@ == tallies_of(bands@, sources@, i as int),
            finds_ways(index@, ways_of(sources@, i as int)),
        decreases n - i,
    {
        let way: u64 = sources[i];
        let ghost ways = ways_of(sources@, i as int);
        let ghost before = out@;
        proof {
            lemma_ways_of(sources@, i as int);
            lemma_ways_of(sources@, i + 1);
        }
        if way != 0 {
            let slot: Option<usize> = match index.get(&way) {
                Some(k) => Some(*k),
                None => None,
            };
            match slot {
                Some(k) => {
                    assert(ways[k as int] == way);
                    assert(ways.contains(way));
                    let t: WayTally = take_in(&out[k], &bands[i]);
                    out.set(k, t);
                    assert(out@ =~= tallies_of(bands@, sources@, i + 1)) by {
                        assert forall|j: int| 0 <= j < ways.len() implies out@[j] == way_tally(
                            bands@,
                            sources@,
                            #[trigger] ways[j],
                            i + 1,
                        ) by {
                            assert(before[j] == way_tally(bands@, sources@, ways[j], i as int));
                        }
                    }
                },
                None => {
                    assert(!ways.contains(way)) by {
                        if ways.contains(way) {
                            let k = choose|k: int| 0 <= k < ways.len() && ways[k] == way;
                            assert(index@.contains_key(ways[k]));
                        }
                    }
                    let fresh = WayTally { walkway: 0, path: 0, narrowest: u128::MAX, widest: 0, bands: 0 };
                    let t: WayTally = take_in(&fresh, &bands[i]);
                    let ghost old_index = index@;
                    index.insert(way, out.len());
                    out.push(t);
                    proof {
                        lemma_unmet_way(bands@, sources@, way, i as int);
                        let all = ways_of(sources@, i + 1);
                        assert(all =~= ways.push(way));
                        assert forall|j: int| 0 <= j < all.len() implies out@[j] == way_tally(
                            bands@,
                            sources@,
                            #[trigger] all[j],
                            i + 1,
                        ) by {
                            if j < ways.len() {
                                assert(before[j] == way_tally(bands@, sources@, ways[j], i as int));
                                assert(ways.contains(ways[j]));
                            }
                        }
                        assert(out@ =~= tallies_of(bands@, sources@, i + 1));
                        assert forall|k: int| 0 <= k < all.len() implies index@.contains_key(#[trigger] all[k]) && index@[all[k]]
                            == k by {
                            if k < ways.len() {
                                assert(all[k] == ways[k]);
                                assert(ways.contains(ways[k]));
                            }
                        }
                        assert forall|w: u64| #[trigger] index@.contains_key(w) implies index@[w] < all.len()
                            && all[index@[w] as int] == w by {
                            if w != way {
                                assert(old_index.contains_key(w));
                            }
                        }
                    }
                },
            }
        } else {
            assert(out@ =~= tallies_of(bands@, sources@, i + 1)) by {
                assert forall|j: int| 0 <= j < ways.len() implies out@[j] == way_tally(
                    bands@,
                    sources@,
                    #[trigger] ways[j],
                    i + 1,
                ) by {
                    assert(before[j] == way_tally(bands@, sources@, ways[j], i as int));
                }
            }
        }
        i = i + 1;
    }
    out
}

/// The least length of a kind that makes a way that kind.
pub const KIND_UM: u128 = 1_000_000;

/// How much a way's width may vary.
pub const VARYING_UM: u128 = 50_000;

/// The fewest bands a way's width is read over.
pub const ALONG_BANDS: u64 = 3;

/// Whether a way is drawn as both kinds.
pub open spec fn is_mixed(t: WayTally) -> bool {
    t.walkway > KIND_UM && t.path > KIND_UM
}

/// The widths of the ways over the first `n` tallies: how far apart the widest
/// and the narrowest of each are.
pub open spec fn along_widths(t: Seq<WayTally>, n: int) -> Seq<u128>
    decreases n,
{
    if n <= 0 {
        Seq::empty()
    } else {
        let rest = along_widths(t, n - 1);
        if t[n - 1].bands >= ALONG_BANDS {
            rest.push(max(t[n - 1].widest - t[n - 1].narrowest, 0) as u128)
        } else {
            rest
        }
    }
}

/// How many of the first `n` values are past the allowed variation.
pub open spec fn varying_count(v: Seq<u128>, n: int) -> int
    decreases n,
{
    if n <= 0 {
        0
    } else {
        varying_count(v, n - 1) + if v[n - 1] > VARYING_UM {
            1int
        } else {
            0
        }
    }
}

/// What the ways add up to.
#[derive(Clone, Copy, Debug, PartialEq, Eq, Structural)]
pub struct Kinds {
    pub walkway: u128,
    pub path: u128,
    /// Ways drawn as both kinds, and their length.
    pub mixed: u64,
    pub mixed_length: u128,
}

pub open spec fn kinds_of(t: Seq<WayTally>, n: int) -> Kinds
    decreases n,
{
    if n <= 0 {
        Kinds { walkway: 0, path: 0, mixed: 0, mixed_length: 0 }
    } else {
        let rest = kinds_of(t, n - 1);
        let w = t[n - 1];
        let both = is_mixed(w);
        Kinds {
            walkway: more(rest.walkway, w.walkway),
            path: more(rest.path, w.path),
            mixed: if both && rest.mixed < u64::MAX {
                (rest.mixed + 1) as u64
            } else {
                rest.mixed
            },
            mixed_length: if both {
                more(more(rest.mixed_length, w.walkway), w.path)
            } else {
                rest.mixed_length
            },
        }
    }
}

/// The census of the drawn widths.
#[derive(Debug)]
pub struct WidthCensus {
    pub sidewalk: Option<Spread>,
    pub hostless: Option<Spread>,
    pub path: Option<Spread>,
    /// How many ways are drawn, and as what.
    pub ways: usize,
    pub kinds: Kinds,
    /// How far the width of one way varies along it, and how many ways vary.
    pub along: Option<Spread>,
    pub varying: usize,
}

impl WidthCensus {
    /// What the census of a set of bands says.
    pub open spec fn describes(&self, bands: Seq<WalkSeg>, sources: Seq<u64>) -> bool {
        let n = bands.len() as int;
        let t = tallies_of(bands, sources, named(bands, sources));
        let v = along_widths(t, t.len() as int);
        &&& self.sidewalk == spread_of(group_widths(bands, Group::Sidewalk, n))
        &&& self.hostless == spread_of(group_widths(bands, Group::Hostless, n))
        &&& self.path == spread_of(group_widths(bands, Group::Path, n))
        &&& self.ways == t.len()
        &&& self.kinds == kinds_of(t, t.len() as int)
        &&& self.along == spread_of(v)
        &&& self.varying == varying_count(v, v.len() as int)
    }
}

fn sum_kinds(t: &Vec<WayTally>) -> (out: Kinds)
    ensures
        out == kinds_of(t@, t@.len() as int),
{
    let mut out = Kinds { walkway: 0, path: 0, mixed: 0, mixed_length: 0 };
    let mut i: usize = 0;
    while i < t.len()
        invariant
            i <= t@.len(),
            out == kinds_of(t@, i as int),
        decreases t@.len() - i,
    {
        let w: &WayTally = &t[i];
        out.walkway = raise(out.walkway, w.walkway);
        out.path = raise(out.path, w.path);
        if w.walkway > KIND_UM && w.path > KIND_UM {
            if out.mixed < u64::MAX {
                out.mixed = out.mixed + 1;
            }
            let with: u128 = raise(out.mixed_length, w.walkway);
            out.mixed_length = raise(with, w.path);
        }
        i = i + 1;
    }
    out
}

fn widths_along(t: &Vec<WayTally>) -> (out: Vec<u128>)
    ensures
        out@ == along_widths(t@, t@.len() as int),
{
    let mut out: Vec<u128> = Vec::new();
    let mut i: usize = 0;
    while i < t.len()
        invariant
            i <= t@.len(),
            out@ == along_widths(t@, i as int),
        decreases t@.len() - i,
    {
        let w: &WayTally = &t[i];
        if w.bands >= ALONG_BANDS {
            let apart: u128 = if w.widest > w.narrowest { w.widest - w.narrowest } else { 0 };
            out.push(apart);
        }
        i = i + 1;
    }
    out
}

/// Takes stock of the drawn widths.
pub fn width_census(bands: &Vec<WalkSeg>, sources: &Vec<u64>) -> (out: WidthCensus)
    ensures
        out.describes(bands@, sources@),
{
    let sidewalk: Vec<u128> = widths_of(bands, Group::Sidewalk);
    let hostless: Vec<u128> = widths_of(bands, Group::Hostless);
    let path: Vec<u128> = widths_of(bands, Group::Path);
    let t: Vec<WayTally> = tally_ways(bands, sources);
    let v: Vec<u128> = widths_along(&t);
    let mut varying: usize = 0;
    let mut i: usize = 0;
    while i < v.len()
        invariant
            i <= v@.len(),
            varying <= i,
            varying == varying_count(v@, i as int),
        decreases v@.len() - i,
    {
        if v[i] > VARYING_UM {
            varying = varying + 1;
        }
        i = i + 1;
    }
    WidthCensus {
        sidewalk: spread(&sidewalk),
        hostless: spread(&hostless),
        path: spread(&path),
        ways: t.len(),
        kinds: sum_kinds(&t),
        along: spread(&v),
        varying,
    }
}

} // verus!
