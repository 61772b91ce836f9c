//! What the ways claim of the streets, and which streets are built up.
use vstd::prelude::*;

use crate::arith::total;
use crate::synth::walkway::claims::{
    claim_at, grade_steps, is_built_up, is_claimed, is_synthesized, lemma_claim_at, nearest_claim, owner_of, parts_of,
    side_key, steps_from, surveyed_length, way_parts, Avenue, LevelRun, Part, RoomAt, Way,
};

verus! {

// ---------------------------------------------------------------------------
// Claims.
// ---------------------------------------------------------------------------

/// The claim an attachment lays.
pub open spec fn claim_of(way: Way, i: int) -> Part {
    Part { from: way.attached@[i].arc0, to: way.attached@[i].arc1, source: way.source }
}

proof fn lemma_way_parts(way: Way, key: u64, n: int)
    requires
        0 <= n <= way.attached@.len(),
    ensures
        forall|i: int|
            0 <= i < n && side_key((#[trigger] way.attached@[i]).host, way.attached@[i].side) == key ==> way_parts(
                way,
                key,
                n,
            ).contains(claim_of(way, i)),
        forall|k: int|
            0 <= k < way_parts(way, key, n).len() ==> exists|i: int|
                0 <= i < n && side_key((#[trigger] way.attached@[i]).host, way.attached@[i].side) == key
                    && #[trigger] way_parts(way, key, n)[k] == claim_of(way, i),
    decreases n,
{
    if n > 0 {
        lemma_way_parts(way, key, n - 1);
        let rest = way_parts(way, key, n - 1);
        let all = way_parts(way, key, n);
        let a = way.attached@[n - 1];
        if side_key(a.host, a.side) == key {
            assert(all[rest.len() as int] == claim_of(way, n - 1));
        }
        assert forall|i: int|
            0 <= i < n && side_key((#[trigger] way.attached@[i]).host, way.attached@[i].side) == key implies all.contains(
            claim_of(way, i),
        ) by {
            if i < n - 1 {
                assert(rest.contains(claim_of(way, i)));
                let k = choose|k: int| 0 <= k < rest.len() && rest[k] == claim_of(way, i);
                assert(all[k] == rest[k]);
            }
        }
        assert forall|k: int| 0 <= k < all.len() implies exists|i: int|
            0 <= i < n && side_key((#[trigger] way.attached@[i]).host, way.attached@[i].side) == key && #[trigger] all[k]
                == claim_of(way, i) by {
            if k < rest.len() {
                assert(all[k] == rest[k]);
            } else {
                assert(side_key(way.attached@[n - 1].host, way.attached@[n - 1].side) == key);
            }
        }
    }
}

/// Every attachment of a way that is neither a crossing nor a staircase claims
/// its stretch of its street side.
pub proof fn every_attachment_claims_its_side(ways: Seq<Way>, n: int, w: int, i: int)
    requires
        0 <= w < n <= ways.len(),
        0 <= i < ways[w].attached@.len(),
        !ways[w].crosswalk,
        !ways[w].steps,
    ensures
        ({
            let a = ways[w].attached@[i];
            parts_of(ways, side_key(a.host, a.side), n).contains(
                (Part { from: a.arc0, to: a.arc1, source: ways[w].source }),
            )
        }),
    decreases n,
{
    let a = ways[w].attached@[i];
    let key = side_key(a.host, a.side);
    let x = claim_of(ways[w], i);
    let rest = parts_of(ways, key, n - 1);
    let all = parts_of(ways, key, n);
    if w < n - 1 {
        every_attachment_claims_its_side(ways, n - 1, w, i);
        let k = choose|k: int| 0 <= k < rest.len() && rest[k] == x;
        assert(all[k] == x);
    } else {
        let m = ways[w].attached@.len() as int;
        lemma_way_parts(ways[w], key, m);
        let more = way_parts(ways[w], key, m);
        assert(ways[w].attached@[i] == a);
        assert(more.contains(x));
        let k = choose|k: int| 0 <= k < more.len() && more[k] == x;
        assert(all[rest.len() + k] == x);
    }
}

/// Nothing else claims a street side.
pub proof fn nothing_else_claims_a_side(ways: Seq<Way>, key: u64, n: int, k: int)
    requires
        0 <= n <= ways.len(),
        0 <= k < parts_of(ways, key, n).len(),
    ensures
        exists|w: int, i: int|
            {
                &&& 0 <= w < n
                &&& 0 <= i < ways[w].attached@.len()
                &&& !ways[w].crosswalk
                &&& !ways[w].steps
                &&& side_key((#[trigger] ways[w].attached@[i]).host, ways[w].attached@[i].side) == key
                &&& parts_of(ways, key, n)[k] == (Part {
                    from: ways[w].attached@[i].arc0,
                    to: ways[w].attached@[i].arc1,
                    source: ways[w].source,
                })
            },
    decreases n,
{
    let rest = parts_of(ways, key, n - 1);
    let all = parts_of(ways, key, n);
    if k < rest.len() {
        assert(all[k] == rest[k]);
        nothing_else_claims_a_side(ways, key, n - 1, k);
    } else {
        let m = ways[n - 1].attached@.len() as int;
        lemma_way_parts(ways[n - 1], key, m);
        let more = way_parts(ways[n - 1], key, m);
        assert(all[k] == more[k - rest.len()]);
        let j = k - rest.len();
        let i = choose|i: int|
            0 <= i < m && side_key(
                (#[trigger] ways[n - 1].attached@[i]).host,
                ways[n - 1].attached@[i].side,
            ) == key && more[j] == claim_of(ways[n - 1], i);
        assert(side_key(ways[n - 1].attached@[i].host, ways[n - 1].attached@[i].side) == key);
    }
}

/// An arc belongs to the first claim holding it.
pub proof fn the_first_claim_holding_an_arc_owns_it(parts: Seq<Part>, arc: int, k: int)
    requires
        0 <= k < parts.len(),
        parts[k].from <= arc <= parts[k].to,
        forall|j: int| 0 <= j < k ==> !((#[trigger] parts[j]).from <= arc <= parts[j].to),
    ensures
        owner_of(parts, arc) == parts[k].source,
{
    lemma_first_claim(parts, arc, parts.len() as int, k);
}

proof fn lemma_first_claim(parts: Seq<Part>, arc: int, n: int, k: int)
    requires
        0 <= k < parts.len(),
        0 <= n <= parts.len(),
        parts[k].from <= arc <= parts[k].to,
        forall|j: int| 0 <= j < k ==> !((#[trigger] parts[j]).from <= arc <= parts[j].to),
    ensures
        claim_at(parts, arc, n) == if k < n {
            Some(k)
        } else {
            None
        },
    decreases n,
{
    if n > 0 {
        lemma_first_claim(parts, arc, n - 1, k);
        if n - 1 < k {
            assert(!(parts[n - 1].from <= arc <= parts[n - 1].to));
        }
    }
}

/// How far an arc outside a claim is from it.
pub open spec fn off_claim(p: Part, arc: int) -> int {
    let a = if p.from < arc {
        arc - p.from
    } else {
        p.from - arc
    };
    let b = if p.to < arc {
        arc - p.to
    } else {
        p.to - arc
    };
    if a < b {
        a
    } else {
        b
    }
}

/// An arc no claim holds belongs to the nearest one, the earliest of several;
/// where there is no claim, to none.
pub proof fn an_unheld_arc_belongs_to_the_nearest_claim(parts: Seq<Part>, arc: int, k: int)
    requires
        forall|j: int| 0 <= j < parts.len() ==> !((#[trigger] parts[j]).from <= arc <= parts[j].to),
        parts.len() > 0 ==> 0 <= k < parts.len(),
        forall|j: int| 0 <= j < k < parts.len() ==> off_claim(parts[k], arc) < off_claim(#[trigger] parts[j], arc),
        forall|j: int| k < j < parts.len() ==> off_claim(parts[k], arc) <= off_claim(#[trigger] parts[j], arc),
    ensures
        owner_of(parts, arc) == if parts.len() == 0 {
            0
        } else {
            parts[k].source
        },
{
    let n = parts.len() as int;
    lemma_claim_at(parts, arc, n);
    if n > 0 {
        lemma_nearest(parts, arc, n, k);
    }
}

proof fn lemma_nearest(parts: Seq<Part>, arc: int, n: int, k: int)
    requires
        0 <= n <= parts.len(),
        0 <= k < parts.len(),
        forall|j: int| 0 <= j < k < parts.len() ==> off_claim(parts[k], arc) < off_claim(#[trigger] parts[j], arc),
        forall|j: int| k < j < parts.len() ==> off_claim(parts[k], arc) <= off_claim(#[trigger] parts[j], arc),
    ensures
        k < n ==> nearest_claim(parts, arc, n) == Some(k),
        n > 0 ==> nearest_claim(parts, arc, n) is Some && 0 <= nearest_claim(parts, arc, n)->0 < n,
    decreases n,
{
    if n > 0 {
        lemma_nearest(parts, arc, n - 1, k);
        if k == n - 1 && n > 1 {
            let b = nearest_claim(parts, arc, n - 1)->0;
            assert(off_claim(parts[k], arc) < off_claim(parts[b], arc));
        }
        if k < n - 1 {
            assert(off_claim(parts[k], arc) <= off_claim(parts[n - 1], arc));
        }
    }
}

/// A street side the data claims is one some way that is neither a crossing nor
/// a staircase attaches to; a side is given a pavement where its street is built
/// up and could carry one, on the left and on the right alike.
pub proof fn a_side_carries_a_pavement_for_cause(ways: Seq<Way>, streets: Seq<Avenue>, key: u64, w: int, i: int, k: int)
    ensures
        0 <= w < ways.len() && 0 <= i < ways[w].attached@.len() && !ways[w].crosswalk && !ways[w].steps ==> is_claimed(
            ways,
            side_key(ways[w].attached@[i].host, ways[w].attached@[i].side),
        ),
        is_claimed(ways, key) ==> exists|w: int, i: int|
            0 <= w < ways.len() && 0 <= i < ways[w].attached@.len() && !ways[w].crosswalk && !ways[w].steps && side_key(
                (#[trigger] ways[w].attached@[i]).host,
                ways[w].attached@[i].side,
            ) == key,
        0 <= k < streets.len() && streets[k].synthesizes && streets[k].built_up ==> is_synthesized(
            streets,
            side_key(streets[k].id, 0),
            streets.len() as int,
        ) && is_synthesized(streets, side_key(streets[k].id, 1), streets.len() as int),
        is_synthesized(streets, key, streets.len() as int) ==> exists|k: int|
            0 <= k < streets.len() && (#[trigger] streets[k]).synthesizes && streets[k].built_up && (key == side_key(
                streets[k].id,
                0,
            ) || key == side_key(streets[k].id, 1)),
{
    if 0 <= w < ways.len() && 0 <= i < ways[w].attached@.len() {
        let a = ways[w].attached@[i];
        assert(side_key(a.host, a.side) == side_key(ways[w].attached@[i].host, ways[w].attached@[i].side));
    }
}

// ---------------------------------------------------------------------------
// Built-up streets.
// ---------------------------------------------------------------------------

/// A run is walked from its start to its end without a gap, ten metres at a
/// time and the rest last.
pub proof fn a_run_is_walked_in_steps(at: int, to: int)
    requires
        i64::MIN <= at,
        to <= i64::MAX,
    ensures
        at >= to ==> steps_from(at, to).len() == 0,
        at < to ==> {
            let s = steps_from(at, to);
            &&& s.len() > 0
            &&& s[0].0 == at
            &&& s.last().1 == to
            &&& forall|i: int| 0 <= i < s.len() - 1 ==> (#[trigger] s[i]).1 == s[i + 1].0 && s[i].1 - s[i].0 == 10_000_000
            &&& 0 < s.last().1 - s.last().0 <= 10_000_000
        },
    decreases to - at,
{
    if at < to {
        let next = if at + 10_000_000 < to {
            at + 10_000_000
        } else {
            to
        };
        a_run_is_walked_in_steps(next, to);
        let s = steps_from(at, to);
        let rest = steps_from(next, to);
        assert(s =~= seq![(at as i64, next as i64)] + rest);
        assert forall|i: int| 0 <= i < s.len() - 1 implies (#[trigger] s[i]).1 == s[i + 1].0 && s[i].1 - s[i].0
            == 10_000_000 by {
            if i > 0 {
                assert(s[i] == rest[i - 1]);
                assert(s[i + 1] == rest[i]);
            } else {
                assert(s[1] == rest[0]);
            }
        }
    }
}

/// Every at-grade run of a street is walked.
pub proof fn every_run_on_the_ground_is_walked(runs: Seq<LevelRun>, n: int, r: int, k: int)
    requires
        0 <= r < n <= runs.len(),
        runs[r].grade,
        0 <= k < steps_from(runs[r].from as int, runs[r].to as int).len(),
    ensures
        grade_steps(runs, n).contains(steps_from(runs[r].from as int, runs[r].to as int)[k]),
    decreases n,
{
    let x = steps_from(runs[r].from as int, runs[r].to as int)[k];
    let rest = grade_steps(runs, n - 1);
    let all = grade_steps(runs, n);
    if r < n - 1 {
        every_run_on_the_ground_is_walked(runs, n - 1, r, k);
        let i = choose|i: int| 0 <= i < rest.len() && rest[i] == x;
        assert(all[i] == x);
    } else {
        assert(all[rest.len() + k] == x);
    }
}

/// Nothing but the runs on the ground is walked.
pub proof fn only_the_ground_is_walked(runs: Seq<LevelRun>, n: int, i: int)
    requires
        0 <= n <= runs.len(),
        0 <= i < grade_steps(runs, n).len(),
    ensures
        exists|r: int|
            0 <= r < n && (#[trigger] runs[r]).grade && steps_from(runs[r].from as int, runs[r].to as int).contains(
                grade_steps(runs, n)[i],
            ),
    decreases n,
{
    let rest = grade_steps(runs, n - 1);
    let all = grade_steps(runs, n);
    if i < rest.len() {
        assert(all[i] == rest[i]);
        only_the_ground_is_walked(runs, n - 1, i);
    } else {
        let more = steps_from(runs[n - 1].from as int, runs[n - 1].to as int);
        assert(all[i] == more[i - rest.len()]);
        assert(more.contains(all[i]));
        assert(runs[n - 1].grade);
    }
}

/// What each step adds to the surveyed length, and to that walled on both
/// sides.
pub open spec fn surveys(steps: Seq<(i64, i64)>, rooms: Seq<RoomAt>, half: int, all: Seq<int>, walled: Seq<int>) -> bool {
    &&& all.len() == steps.len()
    &&& walled.len() == steps.len()
    &&& forall|i: int|
        0 <= i < steps.len() ==> #[trigger] all[i] == if rooms[i].surveyed {
            steps[i].1 - steps[i].0
        } else {
            0
        }
    &&& forall|i: int|
        0 <= i < steps.len() ==> #[trigger] walled[i] == if rooms[i].surveyed && rooms[i].runs && rooms[i].left - half
            < 25_000_000 && rooms[i].right - half < 25_000_000 {
            steps[i].1 - steps[i].0
        } else {
            0
        }
}

/// A street is built up where walls stand within reach of both kerbs over at
/// least half of what was surveyed of it, and anything was.
pub proof fn a_street_is_built_up_when_half_of_it_is_walled(
    half: Option<i64>,
    runs: Seq<LevelRun>,
    rooms: Seq<RoomAt>,
    all: Seq<int>,
    walled: Seq<int>,
)
    requires
        rooms.len() == grade_steps(runs, runs.len() as int).len(),
        half is Some ==> surveys(grade_steps(runs, runs.len() as int), rooms, half->0 as int, all, walled),
    ensures
        is_built_up(half, runs, rooms) <==> half is Some && total(all) > 0 && 2 * total(walled) >= total(all),
{
    if half is Some {
        let steps = grade_steps(runs, runs.len() as int);
        let n = steps.len() as int;
        lemma_surveys(steps, rooms, half->0 as int, all, walled, n);
        assert(all.take(n) =~= all);
        assert(walled.take(n) =~= walled);
    }
}

proof fn lemma_surveys(steps: Seq<(i64, i64)>, rooms: Seq<RoomAt>, half: int, all: Seq<int>, walled: Seq<int>, n: int)
    requires
        surveys(steps, rooms, half, all, walled),
        0 <= n <= steps.len(),
    ensures
        surveyed_length(steps, rooms, half + 25_000_000, false, n) == total(all.take(n)),
        surveyed_length(steps, rooms, half + 25_000_000, true, n) == total(walled.take(n)),
    decreases n,
{
    if n > 0 {
        lemma_surveys(steps, rooms, half, all, walled, n - 1);
        assert(all.take(n).drop_last() =~= all.take(n - 1));
        assert(walled.take(n).drop_last() =~= walled.take(n - 1));
        assert(all.take(n).last() == all[n - 1]);
        assert(walled.take(n).last() == walled[n - 1]);
    }
}

} // verus!
