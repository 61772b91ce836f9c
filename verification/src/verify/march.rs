//! Marches: finding where something ends by asking whether points along a line
//! are covered.
//!
//! The archive carries triangles, not the regions they came from, so there is
//! no boundary to ask for: a march asks the covering test at chosen distances.
use vstd::prelude::*;
use crate::arith::min;

verus! {

/// Where the pavement is first looked for, outward of the kerb.
pub const PROBE_UM: i64 = 700_000;

/// How far outward the pavement is followed.
pub const WIDTH_MAX_UM: i64 = 3_000_000;

/// The bracket the width is first found in.
pub const WIDTH_STEP_UM: i64 = 400_000;

/// How often that bracket is halved.
pub const WIDTH_BISECTIONS: u32 = 6;

/// A width this close to the cap never left the pavement.
pub const WIDTH_CAP_UM: i64 = 2_950_000;

/// A pavement-width measurement in progress. The caller asks whether the point
/// at [`WidthMarch::probe`] is covered and hands the answer back.
#[derive(Clone, Copy, Debug, PartialEq, Eq, Structural)]
pub enum WidthMarch {
    /// Nothing asked yet.
    Start,
    /// Covered at `at`, the next bracket not asked yet.
    Out { at: i64 },
    /// Covered at `lo`; `hi` is not, or is the cap; `left` halvings to go.
    Bracket { lo: i64, hi: i64, left: u32 },
    /// Measured: the width, or none where there is no cross-section.
    Done { width: Option<i64> },
}

/// The bracket to halve next, or the width once no halvings are left.
pub open spec fn bracketed(lo: int, hi: int, left: int) -> WidthMarch {
    if left > 0 {
        WidthMarch::Bracket { lo: lo as i64, hi: hi as i64, left: left as u32 }
    } else if lo < WIDTH_CAP_UM {
        WidthMarch::Done { width: Some(lo as i64) }
    } else {
        WidthMarch::Done { width: None }
    }
}

/// The distance to ask about next, in a measurement not yet done.
pub open spec fn next_probe(m: WidthMarch) -> int {
    match m {
        WidthMarch::Start => PROBE_UM as int,
        WidthMarch::Out { at } => at + WIDTH_STEP_UM,
        WidthMarch::Bracket { lo, hi, left } => (lo + hi) / 2,
        WidthMarch::Done { width } => 0,
    }
}

/// The measurement after the answer to its probe.
pub open spec fn answered(m: WidthMarch, covered: bool) -> WidthMarch {
    match m {
        WidthMarch::Start => if covered {
            WidthMarch::Out { at: PROBE_UM }
        } else {
            WidthMarch::Done { width: None }
        },
        WidthMarch::Out { at } => if !covered {
            bracketed(at as int, at + WIDTH_STEP_UM, WIDTH_BISECTIONS as int)
        } else if at + 2 * WIDTH_STEP_UM <= WIDTH_MAX_UM {
            WidthMarch::Out { at: (at + WIDTH_STEP_UM) as i64 }
        } else {
            bracketed(at + WIDTH_STEP_UM, WIDTH_MAX_UM as int, WIDTH_BISECTIONS as int)
        },
        WidthMarch::Bracket { lo, hi, left } => if covered {
            bracketed((lo + hi) / 2, hi as int, left - 1)
        } else {
            bracketed(lo as int, (lo + hi) / 2, left - 1)
        },
        WidthMarch::Done { width } => m,
    }
}

impl WidthMarch {
    /// Distances stay between the first probe and the cap.
    pub open spec fn well_formed(&self) -> bool {
        match *self {
            WidthMarch::Start => true,
            WidthMarch::Out { at } => PROBE_UM <= at && at + WIDTH_STEP_UM <= WIDTH_MAX_UM,
            WidthMarch::Bracket { lo, hi, left } => PROBE_UM <= lo <= hi <= WIDTH_MAX_UM && 0 < left
                <= WIDTH_BISECTIONS,
            WidthMarch::Done { width } => width is Some ==> PROBE_UM <= width->0 < WIDTH_CAP_UM,
        }
    }

    pub fn new() -> (m: WidthMarch)
        ensures
            m == WidthMarch::Start,
            m.well_formed(),
    {
        WidthMarch::Start
    }

    /// The distance to ask about next, none when the measurement is done.
    pub fn probe(&self) -> (d: Option<i64>)
        requires
            self.well_formed(),
        ensures
            self is Done ==> d is None,
            !(self is Done) ==> d is Some && d->0 == next_probe(*self),
    {
        match *self {
            WidthMarch::Start => Some(PROBE_UM),
            WidthMarch::Out { at } => Some(at + WIDTH_STEP_UM),
            WidthMarch::Bracket { lo, hi, left } => Some(lo + (hi - lo) / 2),
            WidthMarch::Done { width } => None,
        }
    }

    /// The measurement once its probe is answered.
    pub fn answer(self, covered: bool) -> (next: WidthMarch)
        requires
            self.well_formed(),
        ensures
            next == answered(self, covered),
            next.well_formed(),
    {
        match self {
            WidthMarch::Start => if covered {
                WidthMarch::Out { at: PROBE_UM }
            } else {
                WidthMarch::Done { width: None }
            },
            WidthMarch::Out { at } => if !covered {
                bracket(at, at + WIDTH_STEP_UM, WIDTH_BISECTIONS)
            } else if at + 2 * WIDTH_STEP_UM <= WIDTH_MAX_UM {
                WidthMarch::Out { at: at + WIDTH_STEP_UM }
            } else {
                bracket(at + WIDTH_STEP_UM, WIDTH_MAX_UM, WIDTH_BISECTIONS)
            },
            WidthMarch::Bracket { lo, hi, left } => {
                let mid: i64 = lo + (hi - lo) / 2;
                if covered {
                    bracket(mid, hi, left - 1)
                } else {
                    bracket(lo, mid, left - 1)
                }
            },
            WidthMarch::Done { width } => self,
        }
    }
}

fn bracket(lo: i64, hi: i64, left: u32) -> (m: WidthMarch)
    ensures
        m == bracketed(lo as int, hi as int, left as int),
{
    if left > 0 {
        WidthMarch::Bracket { lo, hi, left }
    } else if lo < WIDTH_CAP_UM {
        WidthMarch::Done { width: Some(lo) }
    } else {
        WidthMarch::Done { width: None }
    }
}

/// The measurement of a pavement whose coverage is `covered`, run for `n`
/// answers.
pub open spec fn run_march(covered: spec_fn(int) -> bool, n: int) -> WidthMarch
    decreases n,
{
    if n <= 0 {
        WidthMarch::Start
    } else {
        let m = run_march(covered, n - 1);
        answered(m, covered(next_probe(m)))
    }
}

/// The widest a bracket can be with `left` halvings to go.
pub open spec fn bracket_bound(left: int) -> int {
    if left >= 6 {
        400_000
    } else if left == 5 {
        200_000
    } else if left == 4 {
        100_000
    } else if left == 3 {
        50_000
    } else if left == 2 {
        25_000
    } else if left == 1 {
        12_500
    } else {
        6_250
    }
}

/// What holds of a measurement at every point of its run: everything it calls
/// covered is covered, and an uncovered point (or the cap) closes its bracket.
pub open spec fn march_holds(covered: spec_fn(int) -> bool, m: WidthMarch) -> bool {
    match m {
        WidthMarch::Start => true,
        WidthMarch::Out { at } => covered(at as int),
        WidthMarch::Bracket { lo, hi, left } => covered(lo as int) && (!covered(hi as int) || hi == WIDTH_MAX_UM) && hi
            - lo <= bracket_bound(left as int) + 1,
        WidthMarch::Done { width } => width is Some ==> covered(width->0 as int) && exists|hi: int|
            width->0 <= hi <= width->0 + 6_251 && (!#[trigger] covered(hi) || hi == WIDTH_MAX_UM),
    }
}

/// A measured width is right to within a centimetre: the point at it is
/// covered, and a point no more than a centimetre further out is not, or is
/// the end of the reach.
pub proof fn a_width_lands_within_a_centimetre(covered: spec_fn(int) -> bool, n: int)
    ensures
        run_march(covered, n).well_formed(),
        march_holds(covered, run_march(covered, n)),
    decreases n,
{
    if n > 0 {
        a_width_lands_within_a_centimetre(covered, n - 1);
        let m = run_march(covered, n - 1);
        match m {
            WidthMarch::Bracket { lo, hi, left } => {
                let mid = (lo + hi) / 2;
                if left == 1 {
                    if covered(mid) {
                        assert(!covered(hi as int) || hi == WIDTH_MAX_UM);
                    } else {
                        assert(!covered(mid));
                    }
                }
            },
            _ => {},
        }
    }
}

// ---------------------------------------------------------------------------
// The near kerb of a painted line.
// ---------------------------------------------------------------------------

/// Spacing of the covering answers on one side of a line.
pub const FINE_UM: i64 = 50_000;

/// Answers per coarse step.
pub const COARSE: usize = 5;

/// Coarse steps followed on one side.
pub const COARSE_STEPS: usize = 48;

/// Whether the asphalt covers the point `k` fine steps to one side.
pub open spec fn side_on(side: Seq<bool>, k: int) -> bool {
    0 <= k < side.len() && side[k]
}

/// The first coarse step at or after `c` that leaves the asphalt, none within
/// the reach.
pub open spec fn coarse_gap(side: Seq<bool>, c: int) -> Option<int>
    decreases COARSE_STEPS + 1 - c,
{
    if c > COARSE_STEPS {
        None
    } else if !side_on(side, COARSE * c) {
        Some(c)
    } else {
        coarse_gap(side, c + 1)
    }
}

/// The last covered fine step from `f` on, short of `hi`.
pub open spec fn fine_reach(side: Seq<bool>, f: int, hi: int) -> int
    decreases hi - f,
{
    if f + 1 < hi && side_on(side, f + 1) {
        fine_reach(side, f + 1, hi)
    } else {
        f
    }
}

/// How far the asphalt reaches on one side, none when it does not end within
/// the reach.
pub open spec fn side_reach(side: Seq<bool>) -> Option<int> {
    match coarse_gap(side, 1) {
        None => None,
        Some(c) => Some(fine_reach(side, COARSE * (c - 1), COARSE * c) * FINE_UM),
    }
}

/// The nearer of the two sides' kerbs.
pub open spec fn near_kerb_of(left: Seq<bool>, right: Seq<bool>) -> Option<int> {
    match (side_reach(left), side_reach(right)) {
        (Some(a), Some(b)) => Some(min(a, b)),
        (Some(a), None) => Some(a),
        (None, b) => b,
    }
}

fn on_side(side: &[bool], k: usize) -> (on: bool)
    ensures
        on == side_on(side@, k as int),
{
    k < side.len() && side[k]
}

/// How far the asphalt reaches on one side, in micrometres.
pub fn reach_of(side: &[bool]) -> (out: Option<i64>)
    ensures
        match side_reach(side@) {
            Some(d) => out is Some && out->0 == d && 0 <= d <= 12_000_000,
            None => out is None,
        },
{
    let mut c: usize = 1;
    while c <= COARSE_STEPS && on_side(side, COARSE * c)
        invariant
            1 <= c <= COARSE_STEPS + 1,
            coarse_gap(side@, 1) == coarse_gap(side@, c as int),
        decreases COARSE_STEPS + 1 - c,
    {
        c = c + 1;
    }
    if c > COARSE_STEPS {
        return None;
    }
    let hi: usize = COARSE * c;
    let mut f: usize = COARSE * (c - 1);
    while f + 1 < hi && on_side(side, f + 1)
        invariant
            f < hi <= COARSE * COARSE_STEPS,
            fine_reach(side@, COARSE * (c - 1), hi as int) == fine_reach(side@, f as int, hi as int),
        decreases hi - f,
    {
        f = f + 1;
    }
    Some(f as i64 * FINE_UM)
}

/// How far the asphalt reaches on the nearer side of a painted line. Each side
/// answers whether the asphalt covers the points at whole fine steps from the
/// line. None when neither side ends within the reach: a saturated march is
/// not a measurement.
pub fn near_kerb(left: &[bool], right: &[bool]) -> (out: Option<i64>)
    ensures
        match near_kerb_of(left@, right@) {
            Some(d) => out is Some && out->0 == d && 0 <= d <= 12_000_000,
            None => out is None,
        },
{
    match (reach_of(left), reach_of(right)) {
        (Some(a), Some(b)) => if a < b {
            Some(a)
        } else {
            Some(b)
        },
        (Some(a), None) => Some(a),
        (None, b) => b,
    }
}

/// The asphalt ends on a side at the first fine step off it past the last coarse
/// one on it: the step before is the last of those from there, and every coarse
/// step up to it is on. It does not end where all forty-eight coarse steps are on.
pub proof fn asphalt_ends_at_the_first_step_off_it(side: Seq<bool>)
    ensures
        match side_reach(side) {
            None => forall|c: int| 1 <= c <= 48 ==> side_on(side, #[trigger] (5 * c)),
            Some(x) => exists|f: int, c: int|
                {
                    &&& x == f * 50_000
                    &&& 1 <= c <= 48
                    &&& 5 * (c - 1) <= f < 5 * c
                    &&& !side_on(side, f + 1)
                    &&& !side_on(side, 5 * c)
                    &&& #[trigger] on_between(side, 5 * (c - 1), f)
                    &&& forall|d: int| 1 <= d < c ==> side_on(side, #[trigger] (5 * d))
                },
        },
{
    lemma_coarse_gap(side, 1);
    if let Some(c) = coarse_gap(side, 1) {
        let f = fine_reach(side, 5 * (c - 1), 5 * c);
        lemma_fine_reach(side, 5 * (c - 1), 5 * c);
        assert(on_between(side, 5 * (c - 1), f));
    }
}

/// Whether every fine step after one, up to another, is on the asphalt.
pub open spec fn on_between(side: Seq<bool>, from: int, to: int) -> bool {
    forall|k: int| from < k <= to ==> #[trigger] side_on(side, k)
}

proof fn lemma_coarse_gap(side: Seq<bool>, c: int)
    requires
        1 <= c,
    ensures
        match coarse_gap(side, c) {
            None => forall|d: int| c <= d <= 48 ==> side_on(side, #[trigger] (5 * d)),
            Some(e) => c <= e <= 48 && !side_on(side, 5 * e) && forall|d: int|
                c <= d < e ==> side_on(side, #[trigger] (5 * d)),
        },
    decreases 49 - c,
{
    if c <= 48 && side_on(side, 5 * c) {
        lemma_coarse_gap(side, c + 1);
    }
}

proof fn lemma_fine_reach(side: Seq<bool>, f: int, hi: int)
    requires
        f < hi,
        !side_on(side, hi),
    ensures
        f <= fine_reach(side, f, hi) < hi,
        !side_on(side, fine_reach(side, f, hi) + 1),
        on_between(side, f, fine_reach(side, f, hi)),
    decreases hi - f,
{
    if f + 1 < hi && side_on(side, f + 1) {
        lemma_fine_reach(side, f + 1, hi);
        let r = fine_reach(side, f, hi);
        assert forall|k: int| f < k <= r implies #[trigger] side_on(side, k) by {
            if k > f + 1 {
                assert(on_between(side, f + 1, r));
            }
        }
    }
}

/// The near kerb is the nearer of the two that were found, and none where neither
/// was.
pub proof fn the_near_kerb_is_the_nearer(left: Seq<bool>, right: Seq<bool>)
    ensures
        near_kerb_of(left, right) is None <==> side_reach(left) is None && side_reach(right) is None,
        side_reach(left) matches Some(a) ==> near_kerb_of(left, right)->0 <= a,
        side_reach(right) matches Some(b) ==> near_kerb_of(left, right)->0 <= b,
        near_kerb_of(left, right) matches Some(x) ==> side_reach(left) == Some(x) || side_reach(right) == Some(x),
{
}

/// A pavement not found seven tenths of a metre out has no width, and neither has
/// one followed to within five centimetres of three metres.
pub proof fn a_width_is_found_between_the_probe_and_the_cap(m: WidthMarch, covered: bool)
    requires
        m.well_formed(),
    ensures
        next_probe(WidthMarch::Start) == 700_000,
        answered(WidthMarch::Start, false) == (WidthMarch::Done { width: None }),
        answered(m, covered) matches WidthMarch::Done { width: Some(w) } ==> 700_000 <= w < 2_950_000,
        m is Out && !covered ==> answered(m, covered) == (WidthMarch::Bracket {
            lo: m->at,
            hi: (m->at + 400_000) as i64,
            left: 6,
        }),
{
}

} // verus!
