//! Seating kerb stubs on the pavements they continue, and welding the joints of
//! the pedestrian network in height.
use vstd::prelude::*;
use crate::arith::{abs, along, distance, mean, mean_of, part_way, WHOLE};
use crate::project::Place;
use crate::synth::walkgraph::NO_HOST;
use crate::synth::walkway::{Surface, WalkSeg};

pub mod joints;

verus! {

/// How far past a band's drawn edge a free end still stands on it.
pub const ON_UM: u64 = 250_000;

/// Past this a disagreement is a structure or a mismap, not a joint to close.
pub const WELD_MAX_UM: u64 = 3_000_000;

/// Two heights this close already agree.
pub const AGREED_UM: u64 = 20_000;

/// A band near an end: how far it is, and how far along it its nearest point
/// lies, in millionths.
#[derive(Clone, Copy, Debug, PartialEq, Eq, Structural)]
pub struct BandAt {
    pub band: usize,
    pub distance: u64,
    pub along: u32,
}

/// The bands near each end of a segment.
#[derive(Debug)]
pub struct EndsAt {
    pub a: Vec<BandAt>,
    pub b: Vec<BandAt>,
}

pub open spec fn seen_fits(bands: Seq<WalkSeg>, seen: Seq<BandAt>) -> bool {
    forall|i: int| 0 <= i < seen.len() ==> (#[trigger] seen[i]).band < bands.len() && seen[i].along <= WHOLE
}

pub open spec fn ends_fit(bands: Seq<WalkSeg>, e: EndsAt) -> bool {
    seen_fits(bands, e.a@) && seen_fits(bands, e.b@)
}

/// The height of a band where an end is nearest to it.
pub open spec fn height_there(bands: Seq<WalkSeg>, s: BandAt) -> int {
    let b = bands[s.band as int];
    part_way(b.height_a as int, b.height_b as int, s.along as int, WHOLE as int)
}

/// The drawn half width of a band there.
pub open spec fn half_there(bands: Seq<WalkSeg>, s: BandAt) -> int {
    let b = bands[s.band as int];
    part_way(b.reach_a as int, b.reach_b as int, s.along as int, WHOLE as int)
}

fn height_at(bands: &Vec<WalkSeg>, s: &BandAt) -> (h: i64)
    requires
        s.band < bands@.len(),
        s.along <= WHOLE,
    ensures
        h == height_there(bands@, *s),
{
    let b: WalkSeg = bands[s.band];
    along(b.height_a, b.height_b, s.along)
}

// ---------------------------------------------------------------------------
// Stubs.
// ---------------------------------------------------------------------------

/// Whether a band is a pavement a stub may be seated on.
pub open spec fn seats(bands: Seq<WalkSeg>, stub_from: int, reach: u64, s: BandAt) -> bool {
    &&& s.band < stub_from
    &&& bands[s.band as int].surface == Surface::Walkway
    &&& bands[s.band as int].corridor != NO_HOST
    &&& s.distance <= reach
}

/// The nearest of the first `n` bands a stub may be seated on, the earliest on a
/// tie.
pub open spec fn nearest_seat(bands: Seq<WalkSeg>, stub_from: int, reach: u64, seen: Seq<BandAt>, n: int) -> Option<BandAt>
    decreases n,
{
    if n <= 0 {
        None
    } else {
        let best = nearest_seat(bands, stub_from, reach, seen, n - 1);
        let s = seen[n - 1];
        if seats(bands, stub_from, reach, s) && (best is None || s.distance < best->0.distance) {
            Some(s)
        } else {
            best
        }
    }
}

pub open spec fn seat_of(bands: Seq<WalkSeg>, stub_from: int, reach: u64, seen: Seq<BandAt>) -> Option<BandAt> {
    nearest_seat(bands, stub_from, reach, seen, seen.len() as int)
}

/// A stub seated on the band it continues. One end is enough: the other takes
/// its height.
pub open spec fn seated(bands: Seq<WalkSeg>, stub_from: int, reach: u64, e: EndsAt, stub: WalkSeg) -> WalkSeg {
    let sa = seat_of(bands, stub_from, reach, e.a@);
    let sb = seat_of(bands, stub_from, reach, e.b@);
    if sa is None && sb is None {
        stub
    } else {
        let first = if sa is Some {
            sa->0
        } else {
            sb->0
        };
        let second = if sb is Some {
            sb->0
        } else {
            sa->0
        };
        WalkSeg {
            corridor: bands[first.band as int].corridor,
            rise: bands[first.band as int].rise,
            height_a: height_there(bands, first) as i64,
            height_b: height_there(bands, second) as i64,
            ..stub
        }
    }
}

proof fn lemma_nearest_seat(bands: Seq<WalkSeg>, stub_from: int, reach: u64, seen: Seq<BandAt>, n: int)
    requires
        0 <= n <= seen.len(),
    ensures
        match nearest_seat(bands, stub_from, reach, seen, n) {
            Some(b) => {
                &&& seats(bands, stub_from, reach, b)
                &&& exists|i: int| 0 <= i < n && #[trigger] seen[i] == b
                &&& forall|i: int|
                    0 <= i < n && seats(bands, stub_from, reach, #[trigger] seen[i]) ==> b.distance <= seen[i].distance
            },
            None => forall|i: int| 0 <= i < n ==> !seats(bands, stub_from, reach, #[trigger] seen[i]),
        },
    decreases n,
{
    if n > 0 {
        lemma_nearest_seat(bands, stub_from, reach, seen, n - 1);
        if let Some(b) = nearest_seat(bands, stub_from, reach, seen, n - 1) {
            let i = choose|i: int| 0 <= i < n - 1 && #[trigger] seen[i] == b;
            assert(seen[i] == b);
        }
    }
}

/// A stub is seated on the nearest pavement in reach of an end.
pub proof fn a_stub_seats_on_the_nearest_pavement(bands: Seq<WalkSeg>, stub_from: int, reach: u64, seen: Seq<BandAt>)
    ensures
        match seat_of(bands, stub_from, reach, seen) {
            Some(b) => {
                &&& seats(bands, stub_from, reach, b)
                &&& forall|i: int|
                    0 <= i < seen.len() && seats(bands, stub_from, reach, #[trigger] seen[i]) ==> b.distance
                        <= seen[i].distance
            },
            None => forall|i: int| 0 <= i < seen.len() ==> !seats(bands, stub_from, reach, #[trigger] seen[i]),
        },
{
    lemma_nearest_seat(bands, stub_from, reach, seen, seen.len() as int);
}

/// A stub with no pavement in reach of either end stays as it is.
pub proof fn a_stub_out_of_reach_stays_hostless(bands: Seq<WalkSeg>, stub_from: int, reach: u64, e: EndsAt, stub: WalkSeg)
    requires
        forall|i: int| 0 <= i < e.a@.len() ==> (#[trigger] e.a@[i]).distance > reach,
        forall|i: int| 0 <= i < e.b@.len() ==> (#[trigger] e.b@[i]).distance > reach,
    ensures
        seated(bands, stub_from, reach, e, stub) == stub,
{
    lemma_nearest_seat(bands, stub_from, reach, e.a@, e.a@.len() as int);
    lemma_nearest_seat(bands, stub_from, reach, e.b@, e.b@.len() as int);
    if let Some(b) = seat_of(bands, stub_from, reach, e.a@) {
        let i = choose|i: int| 0 <= i < e.a@.len() && #[trigger] e.a@[i] == b;
        assert(e.a@[i].distance > reach);
    }
    if let Some(b) = seat_of(bands, stub_from, reach, e.b@) {
        let i = choose|i: int| 0 <= i < e.b@.len() && #[trigger] e.b@[i] == b;
        assert(e.b@[i].distance > reach);
    }
}

fn find_seat(bands: &Vec<WalkSeg>, stub_from: usize, reach: u64, seen: &Vec<BandAt>) -> (out: Option<BandAt>)
    requires
        stub_from <= bands@.len(),
        seen_fits(bands@, seen@),
    ensures
        out == seat_of(bands@, stub_from as int, reach, seen@),
        out is Some ==> out->0.band < stub_from && out->0.along <= WHOLE,
{
    let mut best: Option<BandAt> = None;
    let mut i: usize = 0;
    while i < seen.len()
        invariant
            i <= seen@.len(),
            stub_from <= bands@.len(),
            seen_fits(bands@, seen@),
            best == nearest_seat(bands@, stub_from as int, reach, seen@, i as int),
            best is Some ==> best->0.band < stub_from && best->0.along <= WHOLE,
        decreases seen@.len() - i,
    {
        let s: BandAt = seen[i];
        assert(seen@[i as int].along <= WHOLE);
        if s.band < stub_from && s.distance <= reach {
            let b: WalkSeg = bands[s.band];
            let walkway: bool = matches!(b.surface, Surface::Walkway);
            let nearer: bool = match best {
                None => true,
                Some(c) => s.distance < c.distance,
            };
            if walkway && b.corridor != NO_HOST && nearer {
                best = Some(s);
            }
        }
        i = i + 1;
    }
    best
}

/// Seats every stub, the segments from `stub_from` on, on the band it
/// continues.
pub fn seat_stubs(bands: &mut Vec<WalkSeg>, stub_from: usize, reach: u64, seen: &[EndsAt])
    requires
        stub_from <= old(bands)@.len(),
        seen@.len() == old(bands)@.len() - stub_from,
        forall|i: int| 0 <= i < seen@.len() ==> ends_fit(old(bands)@, #[trigger] seen@[i]),
    ensures
        final(bands)@.len() == old(bands)@.len(),
        forall|i: int| 0 <= i < stub_from ==> #[trigger] final(bands)@[i] == old(bands)@[i],
        forall|i: int|
            stub_from <= i < old(bands)@.len() ==> #[trigger] final(bands)@[i] == seated(
                old(bands)@,
                stub_from as int,
                reach,
                seen@[i - stub_from],
                old(bands)@[i],
            ),
{
    let ghost before = bands@;
    let len: usize = bands.len();
    let mut k: usize = 0;
    while k < seen.len()
        invariant
            k <= seen@.len(),
            len == before.len(),
            stub_from <= before.len(),
            bands@.len() == before.len(),
            seen@.len() == before.len() - stub_from,
            forall|i: int| 0 <= i < seen@.len() ==> ends_fit(before, #[trigger] seen@[i]),
            forall|i: int| 0 <= i < stub_from ==> #[trigger] bands@[i] == before[i],
            forall|i: int|
                stub_from <= i < stub_from + k ==> #[trigger] bands@[i] == seated(
                    before,
                    stub_from as int,
                    reach,
                    seen@[i - stub_from],
                    before[i],
                ),
            forall|i: int| stub_from + k <= i < before.len() ==> #[trigger] bands@[i] == before[i],
        decreases seen@.len() - k,
    {
        assert(ends_fit(before, seen@[k as int]));
        let e: &EndsAt = &seen[k];
        let sa: Option<BandAt> = find_seat(bands, stub_from, reach, &e.a);
        let sb: Option<BandAt> = find_seat(bands, stub_from, reach, &e.b);
        proof {
            lemma_same_seats(before, bands@, stub_from as int, reach, e.a@, e.a@.len() as int);
            lemma_same_seats(before, bands@, stub_from as int, reach, e.b@, e.b@.len() as int);
        }
        let si: usize = stub_from + k;
        let found: Option<(BandAt, BandAt)> = match (sa, sb) {
            (Some(a), Some(b)) => Some((a, b)),
            (Some(a), None) => Some((a, a)),
            (None, Some(b)) => Some((b, b)),
            (None, None) => None,
        };
        if let Some((first, second)) = found {
            let host: WalkSeg = bands[first.band];
            let mut s: WalkSeg = bands[si];
            assert(bands@[first.band as int] == before[first.band as int]);
            assert(bands@[second.band as int] == before[second.band as int]);
            s.corridor = host.corridor;
            s.rise = host.rise;
            s.height_a = height_at(bands, &first);
            s.height_b = height_at(bands, &second);
            bands.set(si, s);
        }
        k = k + 1;
    }
}

proof fn lemma_same_seats(a: Seq<WalkSeg>, b: Seq<WalkSeg>, stub_from: int, reach: u64, seen: Seq<BandAt>, n: int)
    requires
        a.len() == b.len(),
        0 <= stub_from <= a.len(),
        forall|i: int| 0 <= i < stub_from ==> #[trigger] a[i] == b[i],
    ensures
        nearest_seat(a, stub_from, reach, seen, n) == nearest_seat(b, stub_from, reach, seen, n),
    decreases n,
{
    if n > 0 {
        lemma_same_seats(a, b, stub_from, reach, seen, n - 1);
        let k = seen[n - 1].band as int;
        if k < stub_from {
            assert(a[k] == b[k]);
        }
    }
}

// ---------------------------------------------------------------------------
// Joints.
// ---------------------------------------------------------------------------

/// Whether a band ends at a point at the same height: the same run going on,
/// which has no say in a joint there.
pub open spec fn chain_mate(t: WalkSeg, p: Place, h: int) -> bool {
    (t.a == p && abs(t.height_a - h) <= AGREED_UM) || (t.b == p && abs(t.height_b - h) <= AGREED_UM)
}

/// Whether a band has a say in the joint at an end of segment `i`: the end
/// stands on it.
pub open spec fn speaks(bands: Seq<WalkSeg>, i: int, p: Place, h: int, s: BandAt) -> bool {
    let t = bands[s.band as int];
    &&& s.band != i
    &&& t.level == 0
    &&& !chain_mate(t, p, h)
    &&& s.distance <= half_there(bands, s) + ON_UM
}

/// The heights of the first `n` bands with a say, added up: the hosted ones, or
/// the others.
pub open spec fn said_sum(bands: Seq<WalkSeg>, i: int, p: Place, h: int, seen: Seq<BandAt>, hosted: bool, n: int) -> int
    decreases n,
{
    if n <= 0 {
        0
    } else {
        let s = seen[n - 1];
        said_sum(bands, i, p, h, seen, hosted, n - 1) + if speaks(bands, i, p, h, s) && (bands[s.band as int].corridor
            != NO_HOST) == hosted {
            height_there(bands, s)
        } else {
            0
        }
    }
}

pub open spec fn said_count(bands: Seq<WalkSeg>, i: int, p: Place, h: int, seen: Seq<BandAt>, hosted: bool, n: int) -> int
    decreases n,
{
    if n <= 0 {
        0
    } else {
        let s = seen[n - 1];
        said_count(bands, i, p, h, seen, hosted, n - 1) + if speaks(bands, i, p, h, s) && (bands[s.band as int].corridor
            != NO_HOST) == hosted {
            1int
        } else {
            0
        }
    }
}

/// The height a joint settles at: the mean of the hosted bands where any stands
/// there, else of the others.
pub open spec fn joint_height(bands: Seq<WalkSeg>, i: int, p: Place, h: int, seen: Seq<BandAt>) -> Option<int> {
    let n = seen.len() as int;
    if said_count(bands, i, p, h, seen, true, n) > 0 {
        Some(mean(said_sum(bands, i, p, h, seen, true, n), said_count(bands, i, p, h, seen, true, n)))
    } else if said_count(bands, i, p, h, seen, false, n) > 0 {
        Some(mean(said_sum(bands, i, p, h, seen, false, n), said_count(bands, i, p, h, seen, false, n)))
    } else {
        None
    }
}

/// The height an end is welded at.
pub open spec fn welded_height(bands: Seq<WalkSeg>, i: int, p: Place, h: i64, seen: Seq<BandAt>) -> i64 {
    match joint_height(bands, i, p, h as int, seen) {
        Some(t) if AGREED_UM < abs(t - h) && abs(t - h) <= WELD_MAX_UM => t as i64,
        _ => h,
    }
}

/// A segment after its free ends are welded. A street's own side of a joint is
/// its authority and stays.
pub open spec fn welded(bands: Seq<WalkSeg>, i: int, e: EndsAt) -> WalkSeg {
    let s = bands[i];
    if s.level != 0 || s.corridor != NO_HOST {
        s
    } else {
        WalkSeg {
            height_a: welded_height(bands, i, s.a, s.height_a, e.a@),
            height_b: welded_height(bands, i, s.b, s.height_b, e.b@),
            ..s
        }
    }
}

/// A street's pavement is never moved by a weld.
pub proof fn a_weld_never_moves_a_hosted_band(bands: Seq<WalkSeg>, i: int, e: EndsAt)
    requires
        bands[i].corridor != NO_HOST,
    ensures
        welded(bands, i, e) == bands[i],
{
}

/// A weld closes a joint or leaves it alone: no end moves by less than what
/// already agrees, nor further than a joint can be apart.
pub proof fn a_weld_moves_no_end_too_far(bands: Seq<WalkSeg>, i: int, e: EndsAt)
    requires
        seen_fits(bands, e.a@),
        seen_fits(bands, e.b@),
    ensures
        welded(bands, i, e).height_a == bands[i].height_a || AGREED_UM < abs(
            welded(bands, i, e).height_a - bands[i].height_a,
        ) <= WELD_MAX_UM,
        welded(bands, i, e).height_b == bands[i].height_b || AGREED_UM < abs(
            welded(bands, i, e).height_b - bands[i].height_b,
        ) <= WELD_MAX_UM,
{
    let s = bands[i];
    lemma_joint_bounds(bands, i, s.a, s.height_a as int, e.a@);
    lemma_joint_bounds(bands, i, s.b, s.height_b as int, e.b@);
}

proof fn lemma_said(bands: Seq<WalkSeg>, i: int, p: Place, h: int, seen: Seq<BandAt>, hosted: bool, n: int)
    requires
        0 <= n <= seen.len(),
        seen_fits(bands, seen),
    ensures
        0 <= said_count(bands, i, p, h, seen, hosted, n) <= n,
        i64::MIN * said_count(bands, i, p, h, seen, hosted, n) <= said_sum(bands, i, p, h, seen, hosted, n) <= i64::MAX
            * said_count(bands, i, p, h, seen, hosted, n),
    decreases n,
{
    if n > 0 {
        lemma_said(bands, i, p, h, seen, hosted, n - 1);
        let s = seen[n - 1];
        assert(s.along <= WHOLE);
        let b = bands[s.band as int];
        crate::arith::lemma_part_way(b.height_a as int, b.height_b as int, s.along as int, WHOLE as int);
    }
}

proof fn lemma_joint_bounds(bands: Seq<WalkSeg>, i: int, p: Place, h: int, seen: Seq<BandAt>)
    requires
        seen_fits(bands, seen),
    ensures
        joint_height(bands, i, p, h, seen) is Some ==> i64::MIN <= joint_height(bands, i, p, h, seen)->0 <= i64::MAX,
{
    let n = seen.len() as int;
    lemma_said(bands, i, p, h, seen, true, n);
    lemma_said(bands, i, p, h, seen, false, n);
    if said_count(bands, i, p, h, seen, true, n) > 0 {
        crate::arith::lemma_mean_bounds(
            said_sum(bands, i, p, h, seen, true, n),
            said_count(bands, i, p, h, seen, true, n),
            i64::MIN as int,
            i64::MAX as int,
        );
    } else if said_count(bands, i, p, h, seen, false, n) > 0 {
        crate::arith::lemma_mean_bounds(
            said_sum(bands, i, p, h, seen, false, n),
            said_count(bands, i, p, h, seen, false, n),
            i64::MIN as int,
            i64::MAX as int,
        );
    }
}

fn same_place(a: &Place, b: &Place) -> (same: bool)
    ensures
        same == (*a == *b),
{
    a.lon == b.lon && a.lat == b.lat
}

fn has_say(bands: &Vec<WalkSeg>, i: usize, p: &Place, h: i64, s: &BandAt) -> (yes: bool)
    requires
        s.band < bands@.len(),
        s.along <= WHOLE,
    ensures
        yes == speaks(bands@, i as int, *p, h as int, *s),
{
    let t: WalkSeg = bands[s.band];
    if s.band == i || t.level != 0 {
        return false;
    }
    let mate: bool = (same_place(&t.a, p) && distance(t.height_a, h) <= AGREED_UM) || (same_place(&t.b, p) && distance(
        t.height_b,
        h,
    ) <= AGREED_UM);
    if mate {
        return false;
    }
    let half: u64 = along_width(t.reach_a, t.reach_b, s.along);
    s.distance as u128 <= half as u128 + ON_UM as u128
}

/// A half width part of the way along a segment.
fn along_width(a: u64, b: u64, t: u32) -> (out: u64)
    requires
        t <= WHOLE,
    ensures
        out == part_way(a as int, b as int, t as int, WHOLE as int),
{
    let v: i128 = b as i128 - a as i128;
    proof {
        crate::arith::lemma_part_way(a as int, b as int, t as int, WHOLE as int);
        assert(-0x1_0000_0000_0000_0000 * 1_000_000 <= v * t <= 0x1_0000_0000_0000_0000 * 1_000_000)
            by (nonlinear_arith)
            requires
                -0x1_0000_0000_0000_0000 <= v <= 0x1_0000_0000_0000_0000,
                0 <= t <= 1_000_000,
        ;
    }
    let part: i128 = crate::arith::quot_of(v * (t as i128), WHOLE as u128);
    (a as i128 + part) as u64
}

fn weld_end(bands: &Vec<WalkSeg>, i: usize, p: &Place, h: i64, seen: &Vec<BandAt>) -> (out: i64)
    requires
        seen_fits(bands@, seen@),
    ensures
        out == welded_height(bands@, i as int, *p, h, seen@),
{
    let mut att_sum: i128 = 0;
    let mut att_n: u64 = 0;
    let mut oth_sum: i128 = 0;
    let mut oth_n: u64 = 0;
    let n: usize = seen.len();
    let mut k: usize = 0;
    while k < n
        invariant
            k <= n,
            n == seen@.len(),
            seen_fits(bands@, seen@),
            att_sum == said_sum(bands@, i as int, *p, h as int, seen@, true, k as int),
            att_n == said_count(bands@, i as int, *p, h as int, seen@, true, k as int),
            oth_sum == said_sum(bands@, i as int, *p, h as int, seen@, false, k as int),
            oth_n == said_count(bands@, i as int, *p, h as int, seen@, false, k as int),
        decreases n - k,
    {
        let s: BandAt = seen[k];
        assert(seen@[k as int].band < bands@.len());
        proof {
            lemma_said(bands@, i as int, *p, h as int, seen@, true, k as int);
            lemma_said(bands@, i as int, *p, h as int, seen@, false, k as int);
            lemma_said(bands@, i as int, *p, h as int, seen@, true, k + 1);
            lemma_said(bands@, i as int, *p, h as int, seen@, false, k + 1);
            lemma_sum_fits(att_sum as int, att_n as int);
            lemma_sum_fits(oth_sum as int, oth_n as int);
        }
        if has_say(bands, i, p, h, &s) {
            let th: i64 = height_at(bands, &s);
            if bands[s.band].corridor != NO_HOST {
                att_sum = att_sum + th as i128;
                att_n = att_n + 1;
            } else {
                oth_sum = oth_sum + th as i128;
                oth_n = oth_n + 1;
            }
        }
        k = k + 1;
    }
    proof {
        lemma_said(bands@, i as int, *p, h as int, seen@, true, n as int);
        lemma_said(bands@, i as int, *p, h as int, seen@, false, n as int);
    }
    let target: i64 = if att_n > 0 {
        mean_of(att_sum, att_n, Ghost(i64::MIN as int), Ghost(i64::MAX as int))
    } else if oth_n > 0 {
        mean_of(oth_sum, oth_n, Ghost(i64::MIN as int), Ghost(i64::MAX as int))
    } else {
        return h;
    };
    let delta: u64 = distance(target, h);
    if delta <= AGREED_UM || delta > WELD_MAX_UM {
        h
    } else {
        target
    }
}

proof fn lemma_sum_fits(sum: int, count: int)
    requires
        0 <= count <= usize::MAX,
        i64::MIN * count <= sum <= i64::MAX * count,
    ensures
        i128::MIN + 0x8000_0000_0000_0000 <= sum <= i128::MAX - 0x8000_0000_0000_0000,
{
    assert(-0x8000_0000_0000_0000 * 0xffff_ffff_ffff_ffff <= sum <= 0x7fff_ffff_ffff_ffff * 0xffff_ffff_ffff_ffff)
        by (nonlinear_arith)
        requires
            0 <= count <= 0xffff_ffff_ffff_ffff,
            -0x8000_0000_0000_0000 * count <= sum <= 0x7fff_ffff_ffff_ffff * count,
    ;
}

/// Welds the joints of the network: every free end takes the height of the
/// joint it stands on. Every decision reads the heights as they were.
pub fn weld_joints(bands: &mut Vec<WalkSeg>, seen: &[EndsAt])
    requires
        seen@.len() == old(bands)@.len(),
        forall|i: int| 0 <= i < seen@.len() ==> ends_fit(old(bands)@, #[trigger] seen@[i]),
    ensures
        final(bands)@.len() == old(bands)@.len(),
        forall|i: int|
            0 <= i < old(bands)@.len() ==> #[trigger] final(bands)@[i] == welded(old(bands)@, i, seen@[i]),
{
    let ghost before = bands@;
    let mut welds: Vec<(i64, i64)> = Vec::new();
    let mut i: usize = 0;
    while i < bands.len()
        invariant
            i <= bands@.len(),
            bands@ == before,
            seen@.len() == before.len(),
            forall|k: int| 0 <= k < seen@.len() ==> ends_fit(before, #[trigger] seen@[k]),
            welds@.len() == i,
            forall|k: int|
                0 <= k < i ==> (#[trigger] welds@[k]) == (
                    welded(before, k, seen@[k]).height_a,
                    welded(before, k, seen@[k]).height_b,
                ),
        decreases bands@.len() - i,
    {
        let s: WalkSeg = bands[i];
        assert(ends_fit(before, seen@[i as int]));
        if s.level != 0 || s.corridor != NO_HOST {
            welds.push((s.height_a, s.height_b));
        } else {
            let ha: i64 = weld_end(bands, i, &s.a, s.height_a, &seen[i].a);
            let hb: i64 = weld_end(bands, i, &s.b, s.height_b, &seen[i].b);
            welds.push((ha, hb));
        }
        i = i + 1;
    }
    let n: usize = bands.len();
    let mut k: usize = 0;
    while k < n
        invariant
            k <= n,
            n == before.len(),
            bands@.len() == n,
            welds@.len() == n,
            forall|j: int|
                0 <= j < n ==> (#[trigger] welds@[j]) == (
                    welded(before, j, seen@[j]).height_a,
                    welded(before, j, seen@[j]).height_b,
                ),
            forall|j: int| 0 <= j < k ==> #[trigger] bands@[j] == welded(before, j, seen@[j]),
            forall|j: int| k <= j < n ==> #[trigger] bands@[j] == before[j],
        decreases n - k,
    {
        let mut s: WalkSeg = bands[k];
        assert(welds@[k as int].0 == welded(before, k as int, seen@[k as int]).height_a);
        s.height_a = welds[k].0;
        s.height_b = welds[k].1;
        bands.set(k, s);
        k = k + 1;
    }
}

} // verus!
