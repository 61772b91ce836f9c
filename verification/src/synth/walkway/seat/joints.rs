//! What a stub is seated on, and the height a joint is welded at.
use vstd::prelude::*;

use crate::arith::{a_mean_is_rounded_down, a_part_of_the_way_is_in_proportion, total, WHOLE};
use crate::project::Place;
use crate::synth::walkgraph::NO_HOST;
use crate::synth::walkway::seat::{
    half_there, height_there, joint_height, lemma_joint_bounds, lemma_nearest_seat, nearest_seat, said_count, said_sum,
    seat_of, seated, seen_fits, speaks, welded, BandAt, EndsAt,
};
use crate::synth::walkway::{Surface, WalkSeg};

verus! {

/// Whether a stub may take its seat from a band: a street's pavement that is no
/// stub itself, within reach.
pub open spec fn may_seat(bands: Seq<WalkSeg>, stub_from: int, reach: u64, s: BandAt) -> bool {
    &&& s.distance <= reach
    &&& s.band < stub_from
    &&& bands[s.band as int].corridor != NO_HOST
    &&& bands[s.band as int].surface == Surface::Walkway
}

/// A stub's end is seated on the nearest pavement it may be, the earliest of
/// several, and on none only where there is none.
pub proof fn an_end_takes_the_nearest_seat(bands: Seq<WalkSeg>, stub_from: int, reach: u64, seen: Seq<BandAt>, n: int)
    requires
        0 <= n <= seen.len(),
    ensures
        match nearest_seat(bands, stub_from, reach, seen, n) {
            Some(b) => exists|k: int|
                {
                    &&& 0 <= k < n
                    &&& #[trigger] seen[k] == b
                    &&& may_seat(bands, stub_from, reach, b)
                    &&& forall|j: int|
                        0 <= j < n && may_seat(bands, stub_from, reach, #[trigger] seen[j]) ==> b.distance
                            <= seen[j].distance
                    &&& forall|j: int|
                        0 <= j < k && may_seat(bands, stub_from, reach, #[trigger] seen[j]) ==> b.distance
                            < seen[j].distance
                },
            None => forall|j: int| 0 <= j < n ==> !may_seat(bands, stub_from, reach, #[trigger] seen[j]),
        },
    decreases n,
{
    if n > 0 {
        an_end_takes_the_nearest_seat(bands, stub_from, reach, seen, n - 1);
        let best = nearest_seat(bands, stub_from, reach, seen, n - 1);
        let s = seen[n - 1];
        if may_seat(bands, stub_from, reach, s) && (best is None || s.distance < best->0.distance) {
            assert(seen[n - 1] == s);
        } else if best is Some {
            let b = best->0;
            let k = choose|k: int|
                {
                    &&& 0 <= k < n - 1
                    &&& #[trigger] seen[k] == b
                    &&& may_seat(bands, stub_from, reach, b)
                    &&& forall|j: int|
                        0 <= j < n - 1 && may_seat(bands, stub_from, reach, #[trigger] seen[j]) ==> b.distance
                            <= seen[j].distance
                    &&& forall|j: int|
                        0 <= j < k && may_seat(bands, stub_from, reach, #[trigger] seen[j]) ==> b.distance
                            < seen[j].distance
                };
            assert(seen[k] == b);
        }
    }
}

/// A seated stub takes each end's height from that end's seat, or from the other
/// end's where it has none, and its street and rise from the first end's seat it
/// has.
pub proof fn a_seated_stub_takes_its_seats_heights(bands: Seq<WalkSeg>, stub_from: int, reach: u64, e: EndsAt, stub: WalkSeg)
    requires
        seen_fits(bands, e.a@),
        seen_fits(bands, e.b@),
    ensures
        ({
            let sa = seat_of(bands, stub_from, reach, e.a@);
            let sb = seat_of(bands, stub_from, reach, e.b@);
            let out = seated(bands, stub_from, reach, e, stub);
            &&& sa is None && sb is None ==> out == stub
            &&& sa matches Some(a) ==> out.height_a == height_there(bands, a) && out.corridor == bands[a.band as int].corridor
                && out.rise == bands[a.band as int].rise
            &&& sa is Some && sb is None ==> out.height_b == out.height_a
            &&& sb matches Some(b) ==> out.height_b == height_there(bands, b)
            &&& sa is None ==> (sb matches Some(b) ==> out.height_a == out.height_b && out.corridor == bands[b.band as int].corridor
                && out.rise == bands[b.band as int].rise)
            &&& out == (WalkSeg {
                corridor: out.corridor,
                rise: out.rise,
                height_a: out.height_a,
                height_b: out.height_b,
                ..stub
            })
        }),
{
    lemma_nearest_seat(bands, stub_from, reach, e.a@, e.a@.len() as int);
    lemma_nearest_seat(bands, stub_from, reach, e.b@, e.b@.len() as int);
    an_end_takes_the_nearest_seat(bands, stub_from, reach, e.a@, e.a@.len() as int);
    an_end_takes_the_nearest_seat(bands, stub_from, reach, e.b@, e.b@.len() as int);
    if let Some(a) = seat_of(bands, stub_from, reach, e.a@) {
        lemma_height_fits(bands, a);
    }
    if let Some(b) = seat_of(bands, stub_from, reach, e.b@) {
        lemma_height_fits(bands, b);
    }
}

proof fn lemma_height_fits(bands: Seq<WalkSeg>, s: BandAt)
    requires
        s.along <= WHOLE,
    ensures
        i64::MIN <= height_there(bands, s) <= i64::MAX,
{
    let b = bands[s.band as int];
    crate::arith::lemma_part_way(b.height_a as int, b.height_b as int, s.along as int, WHOLE as int);
}

/// A band's height, and its half width, part of the way along it stand in
/// proportion between those of its ends.
pub proof fn a_band_is_read_in_proportion(bands: Seq<WalkSeg>, s: BandAt)
    requires
        s.along <= 1_000_000,
    ensures
        ({
            let b = bands[s.band as int];
            let t = s.along as int;
            let h = height_there(bands, s) - b.height_a;
            let w = half_there(bands, s) - b.reach_a;
            &&& -1_000_000 < h * 1_000_000 - (b.height_b - b.height_a) * t < 1_000_000
            &&& -1_000_000 < w * 1_000_000 - (b.reach_b - b.reach_a) * t < 1_000_000
            &&& t == 0 ==> h == 0 && w == 0
            &&& t == 1_000_000 ==> h == b.height_b - b.height_a && w == b.reach_b - b.reach_a
        }),
{
    let b = bands[s.band as int];
    a_part_of_the_way_is_in_proportion(b.height_a as int, b.height_b as int, s.along as int, 1_000_000);
    a_part_of_the_way_is_in_proportion(b.reach_a as int, b.reach_b as int, s.along as int, 1_000_000);
}

// ---------------------------------------------------------------------------
// Welds.
// ---------------------------------------------------------------------------

/// Whether a band ends where another does, at a height that already agrees.
pub open spec fn ends_alike(t: WalkSeg, p: Place, h: int) -> bool {
    ||| t.a == p && -20_000 <= t.height_a - h <= 20_000
    ||| t.b == p && -20_000 <= t.height_b - h <= 20_000
}

/// Whether a band has a say at an end: another band on the ground the end stands
/// on, within a quarter metre of its edge, that does not end there alike.
pub open spec fn has_a_say(bands: Seq<WalkSeg>, i: int, p: Place, h: int, s: BandAt) -> bool {
    &&& s.band != i
    &&& bands[s.band as int].level == 0
    &&& s.distance - half_there(bands, s) <= 250_000
    &&& !ends_alike(bands[s.band as int], p, h)
}

/// What the bands with a say at an end say: the hosted ones, or the others.
pub open spec fn say(
    bands: Seq<WalkSeg>,
    i: int,
    p: Place,
    h: int,
    seen: Seq<BandAt>,
    hosted: bool,
    heights: Seq<int>,
    ones: Seq<int>,
) -> bool {
    &&& heights.len() == seen.len()
    &&& ones.len() == seen.len()
    &&& forall|k: int|
        0 <= k < seen.len() ==> #[trigger] heights[k] == if has_a_say(bands, i, p, h, seen[k]) && (bands[seen[k].band as int].corridor
            != NO_HOST) == hosted {
            height_there(bands, seen[k])
        } else {
            0
        }
    &&& forall|k: int|
        0 <= k < seen.len() ==> #[trigger] ones[k] == if has_a_say(bands, i, p, h, seen[k]) && (bands[seen[k].band as int].corridor
            != NO_HOST) == hosted {
            1int
        } else {
            0
        }
}

proof fn lemma_say(
    bands: Seq<WalkSeg>,
    i: int,
    p: Place,
    h: int,
    seen: Seq<BandAt>,
    hosted: bool,
    heights: Seq<int>,
    ones: Seq<int>,
    n: int,
)
    requires
        say(bands, i, p, h, seen, hosted, heights, ones),
        0 <= n <= seen.len(),
    ensures
        said_sum(bands, i, p, h, seen, hosted, n) == total(heights.take(n)),
        said_count(bands, i, p, h, seen, hosted, n) == total(ones.take(n)),
        total(ones.take(n)) >= 0,
    decreases n,
{
    if n > 0 {
        lemma_say(bands, i, p, h, seen, hosted, heights, ones, n - 1);
        assert(heights.take(n).drop_last() =~= heights.take(n - 1));
        assert(ones.take(n).drop_last() =~= ones.take(n - 1));
        assert(heights.take(n).last() == heights[n - 1]);
        assert(ones.take(n).last() == ones[n - 1]);
        assert(speaks(bands, i, p, h, seen[n - 1]) == has_a_say(bands, i, p, h, seen[n - 1]));
    }
}

/// A joint settles at the mean of what the hosted bands with a say say, or of
/// what the others say where none is hosted, rounded down; where none has a say
/// there is no joint.
pub proof fn a_joint_settles_at_the_mean_said(
    bands: Seq<WalkSeg>,
    i: int,
    p: Place,
    h: int,
    seen: Seq<BandAt>,
    held: Seq<int>,
    held_ones: Seq<int>,
    free: Seq<int>,
    free_ones: Seq<int>,
)
    requires
        say(bands, i, p, h, seen, true, held, held_ones),
        say(bands, i, p, h, seen, false, free, free_ones),
    ensures
        joint_height(bands, i, p, h, seen) is None <==> total(held_ones) == 0 && total(free_ones) == 0,
        joint_height(bands, i, p, h, seen) matches Some(t) ==> {
            &&& total(held_ones) > 0 ==> t * total(held_ones) <= total(held) < (t + 1) * total(held_ones)
            &&& total(held_ones) == 0 ==> t * total(free_ones) <= total(free) < (t + 1) * total(free_ones)
        },
{
    let n = seen.len() as int;
    lemma_say(bands, i, p, h, seen, true, held, held_ones, n);
    lemma_say(bands, i, p, h, seen, false, free, free_ones, n);
    assert(held.take(n) =~= held && held_ones.take(n) =~= held_ones);
    assert(free.take(n) =~= free && free_ones.take(n) =~= free_ones);
    if total(held_ones) > 0 {
        a_mean_is_rounded_down(total(held), total(held_ones));
    } else if total(free_ones) > 0 {
        a_mean_is_rounded_down(total(free), total(free_ones));
    }
}

/// An end is welded to its joint where the two stand more than two centimetres
/// and no more than three metres apart; otherwise it keeps its height. Only free
/// bands on the ground are welded, and only their heights.
pub proof fn a_weld_takes_the_joints_height(bands: Seq<WalkSeg>, i: int, e: EndsAt)
    requires
        seen_fits(bands, e.a@),
        seen_fits(bands, e.b@),
    ensures
        ({
            let s = bands[i];
            let t = welded(bands, i, e);
            let a = joint_height(bands, i, s.a, s.height_a as int, e.a@);
            let b = joint_height(bands, i, s.b, s.height_b as int, e.b@);
            &&& s.level != 0 || s.corridor != NO_HOST ==> t == s
            &&& s.level == 0 && s.corridor == NO_HOST ==> {
                &&& t.height_a == if a is Some && closes(a->0 - s.height_a) {
                    a->0
                } else {
                    s.height_a as int
                }
                &&& t.height_b == if b is Some && closes(b->0 - s.height_b) {
                    b->0
                } else {
                    s.height_b as int
                }
            }
            &&& t == (WalkSeg { height_a: t.height_a, height_b: t.height_b, ..s })
        }),
{
    let s = bands[i];
    lemma_joint_bounds(bands, i, s.a, s.height_a as int, e.a@);
    lemma_joint_bounds(bands, i, s.b, s.height_b as int, e.b@);
}

/// Whether a disagreement is a joint to close.
pub open spec fn closes(d: int) -> bool {
    20_000 < d <= 3_000_000 || -3_000_000 <= d < -20_000
}

} // verus!
