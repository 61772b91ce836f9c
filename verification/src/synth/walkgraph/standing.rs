//! Which ends are one joint, who stands at it, and what is counted of it.
use vstd::prelude::*;

use crate::arith::{a_mean_is_rounded_down, total};
use crate::synth::walkgraph::evidence::{joints_of, standings_of, BandSeen, EndPair};
use crate::synth::walkgraph::{
    carriers, census_of, coincidence_sets, declined, highest, hosted, id_count, is_node, is_partition, is_stub, joined,
    joint_members, joint_sets, lines_carrying, live, lowest, merged, merging_keeps_a_partition, multi_band,
    multi_corridor, own_members, seat, seat_spread, seed_joined, seeds_joined, shared_on_line, shared_positions,
    slot_count, standing_count, standing_members, street_count, street_of, street_pinned, street_sum, street_surface,
    streets_carrying, stub_count, stub_host, stub_members, surface_sum, surfaces_count, surfaces_sum, Band,
    ConnectorSeed, Evidence, Member, Net, Standing, Street, StubEnd, WalkLine, NO_HOST,
};

verus! {

// ---------------------------------------------------------------------------
// Joints.
// ---------------------------------------------------------------------------

/// Whether labels of the slots agree with the sets: every slot has the label of
/// its set's name.
spec fn respects(label: Seq<int>, roots: Seq<int>) -> bool {
    &&& label.len() == roots.len()
    &&& forall|i: int| 0 <= i < roots.len() ==> label[#[trigger] roots[i]] == label[i]
}

proof fn lemma_merged(label: Seq<int>, roots: Seq<int>, a: int, b: int)
    requires
        is_partition(roots),
        0 <= a < roots.len(),
        0 <= b < roots.len(),
    ensures
        is_partition(merged(roots, a, b)),
        merged(roots, a, b).len() == roots.len(),
        merged(roots, a, b)[a] == merged(roots, a, b)[b],
        forall|i: int, j: int|
            0 <= i < roots.len() && 0 <= j < roots.len() && #[trigger] roots[i] == #[trigger] roots[j]
                ==> merged(roots, a, b)[i] == merged(roots, a, b)[j],
        respects(label, roots) && label[a] == label[b] ==> respects(label, merged(roots, a, b)),
{
    merging_keeps_a_partition(roots, a, b);
    if respects(label, roots) && label[a] == label[b] {
        let m = merged(roots, a, b);
        assert forall|i: int| 0 <= i < m.len() implies label[#[trigger] m[i]] == label[i] by {
            assert(label[roots[i]] == label[i]);
            assert(label[roots[a]] == label[a]);
            assert(label[roots[b]] == label[b]);
        }
    }
}

proof fn lemma_joined(label: Seq<int>, roots: Seq<int>, pairs: Seq<(u32, u32)>, n: int)
    requires
        0 <= n <= pairs.len(),
        is_partition(roots),
        forall|k: int| 0 <= k < pairs.len() ==> (#[trigger] pairs[k]).0 < roots.len() && pairs[k].1 < roots.len(),
    ensures
        is_partition(joined(roots, pairs, n)),
        joined(roots, pairs, n).len() == roots.len(),
        forall|k: int|
            0 <= k < n ==> joined(roots, pairs, n)[(#[trigger] pairs[k]).0 as int] == joined(roots, pairs, n)[pairs[k].1 as int],
        respects(label, roots) && (forall|k: int|
            0 <= k < pairs.len() ==> label[(#[trigger] pairs[k]).0 as int] == label[pairs[k].1 as int])
            ==> respects(label, joined(roots, pairs, n)),
    decreases n,
{
    if n > 0 {
        lemma_joined(label, roots, pairs, n - 1);
        lemma_merged(label, joined(roots, pairs, n - 1), pairs[n - 1].0 as int, pairs[n - 1].1 as int);
    }
}

proof fn lemma_seed_joined(label: Seq<int>, roots: Seq<int>, ends: Seq<u32>, n: int)
    requires
        0 <= n <= ends.len(),
        is_partition(roots),
        forall|k: int| 0 <= k < ends.len() ==> (#[trigger] ends[k]) < roots.len(),
    ensures
        is_partition(seed_joined(roots, ends, n)),
        seed_joined(roots, ends, n).len() == roots.len(),
        forall|i: int, j: int|
            0 <= i < roots.len() && 0 <= j < roots.len() && #[trigger] roots[i] == #[trigger] roots[j]
                ==> seed_joined(roots, ends, n)[i] == seed_joined(roots, ends, n)[j],
        forall|k: int|
            0 <= k < n ==> seed_joined(roots, ends, n)[#[trigger] ends[k] as int] == seed_joined(roots, ends, n)[ends[0] as int],
        respects(label, roots) && (forall|k: int|
            0 <= k < ends.len() ==> label[#[trigger] ends[k] as int] == label[ends[0] as int])
            ==> respects(label, seed_joined(roots, ends, n)),
    decreases n,
{
    if n > 1 {
        lemma_seed_joined(label, roots, ends, n - 1);
        let before = seed_joined(roots, ends, n - 1);
        lemma_merged(label, before, ends[0] as int, ends[n - 1] as int);
        assert forall|k: int| 0 <= k < n implies seed_joined(roots, ends, n)[#[trigger] ends[k] as int]
            == seed_joined(roots, ends, n)[ends[0] as int] by {
            if k < n - 1 {
                assert(before[ends[k] as int] == before[ends[0] as int]);
            }
        }
    }
}

spec fn keeps_seeds(label: Seq<int>, seeds: Seq<ConnectorSeed>) -> bool {
    forall|s: int, k: int|
        0 <= s < seeds.len() && 0 <= k < seeds[s].ends@.len() ==> label[#[trigger] seeds[s].ends@[k] as int]
            == label[seeds[s].ends@[0] as int]
}

proof fn lemma_seeds_joined(label: Seq<int>, roots: Seq<int>, seeds: Seq<ConnectorSeed>, n: int)
    requires
        0 <= n <= seeds.len(),
        is_partition(roots),
        forall|s: int, k: int|
            0 <= s < seeds.len() && 0 <= k < seeds[s].ends@.len() ==> (#[trigger] seeds[s].ends@[k]) < roots.len(),
    ensures
        is_partition(seeds_joined(roots, seeds, n)),
        seeds_joined(roots, seeds, n).len() == roots.len(),
        forall|i: int, j: int|
            0 <= i < roots.len() && 0 <= j < roots.len() && #[trigger] roots[i] == #[trigger] roots[j]
                ==> seeds_joined(roots, seeds, n)[i] == seeds_joined(roots, seeds, n)[j],
        forall|s: int, k: int|
            0 <= s < n && 0 <= k < seeds[s].ends@.len() ==> seeds_joined(roots, seeds, n)[#[trigger] seeds[s].ends@[k] as int]
                == seeds_joined(roots, seeds, n)[seeds[s].ends@[0] as int],
        respects(label, roots) && keeps_seeds(label, seeds) ==> respects(label, seeds_joined(roots, seeds, n)),
    decreases n,
{
    if n > 0 {
        lemma_seeds_joined(label, roots, seeds, n - 1);
        let before = seeds_joined(roots, seeds, n - 1);
        let ends = seeds[n - 1].ends@;
        assert forall|k: int| 0 <= k < ends.len() implies (#[trigger] ends[k]) < before.len() by {
            assert(seeds[n - 1].ends@[k] < roots.len());
        }
        lemma_seed_joined(label, before, ends, ends.len() as int);
        let after = seeds_joined(roots, seeds, n);
        assert forall|s: int, k: int| 0 <= s < n && 0 <= k < seeds[s].ends@.len() implies after[#[trigger] seeds[s].ends@[k] as int]
            == after[seeds[s].ends@[0] as int] by {
            if s < n - 1 {
                assert(before[seeds[s].ends@[k] as int] == before[seeds[s].ends@[0] as int]);
                assert(seeds[s].ends@[0] < roots.len());
            } else {
                assert(ends[k] == seeds[s].ends@[k]);
            }
        }
        if respects(label, roots) && keeps_seeds(label, seeds) {
            assert forall|k: int| 0 <= k < ends.len() implies label[#[trigger] ends[k] as int]
                == label[ends[0] as int] by {
                assert(label[seeds[n - 1].ends@[k] as int] == label[seeds[n - 1].ends@[0] as int]);
            }
        }
    }
}

proof fn lemma_joint_sets(label: Seq<int>, bands: Seq<Band>, evidence: Evidence)
    requires
        slots_fit(bands, evidence),
    ensures
        is_partition(joint_sets(bands, evidence)),
        joint_sets(bands, evidence).len() == slot_count(bands),
        forall|k: int|
            0 <= k < evidence.coincident@.len() ==> joint_sets(bands, evidence)[(#[trigger] evidence.coincident@[k]).0 as int]
                == joint_sets(bands, evidence)[evidence.coincident@[k].1 as int],
        forall|s: int, k: int|
            0 <= s < evidence.seeds@.len() && 0 <= k < evidence.seeds@[s].ends@.len() ==> joint_sets(
                bands,
                evidence,
            )[#[trigger] evidence.seeds@[s].ends@[k] as int] == joint_sets(bands, evidence)[evidence.seeds@[s].ends@[0] as int],
        label.len() == slot_count(bands) && keeps_seeds(label, evidence.seeds@) && (forall|k: int|
            0 <= k < evidence.coincident@.len() ==> label[(#[trigger] evidence.coincident@[k]).0 as int]
                == label[evidence.coincident@[k].1 as int]) ==> respects(label, joint_sets(bands, evidence)),
{
    let start = Seq::new(slot_count(bands) as nat, |i: int| i);
    let pairs = evidence.coincident@;
    lemma_joined(label, start, pairs, pairs.len() as int);
    let co = coincidence_sets(bands, evidence);
    lemma_seeds_joined(label, co, evidence.seeds@, evidence.seeds@.len() as int);
    let all = joint_sets(bands, evidence);
    assert forall|k: int| 0 <= k < pairs.len() implies all[(#[trigger] pairs[k]).0 as int]
        == all[pairs[k].1 as int] by {
        assert(co[pairs[k].0 as int] == co[pairs[k].1 as int]);
    }
}

/// Every end the evidence names is one of the bands'.
pub open spec fn slots_fit(bands: Seq<Band>, evidence: Evidence) -> bool {
    &&& forall|k: int|
        0 <= k < evidence.coincident@.len() ==> (#[trigger] evidence.coincident@[k]).0 < 2 * bands.len()
            && evidence.coincident@[k].1 < 2 * bands.len()
    &&& forall|s: int, k: int|
        0 <= s < evidence.seeds@.len() && 0 <= k < evidence.seeds@[s].ends@.len() ==> (#[trigger] evidence.seeds@[s].ends@[k])
            < 2 * bands.len()
}

/// Two ends that coincide are one joint, and so are any two ends at one
/// connector.
pub proof fn coinciding_ends_are_one_joint(bands: Seq<Band>, evidence: Evidence, k: int, s: int, a: int, b: int)
    requires
        slots_fit(bands, evidence),
    ensures
        0 <= k < evidence.coincident@.len() ==> joint_sets(bands, evidence)[evidence.coincident@[k].0 as int]
            == joint_sets(bands, evidence)[evidence.coincident@[k].1 as int],
        0 <= s < evidence.seeds@.len() && 0 <= a < evidence.seeds@[s].ends@.len() && 0 <= b
            < evidence.seeds@[s].ends@.len() ==> joint_sets(bands, evidence)[evidence.seeds@[s].ends@[a] as int]
            == joint_sets(bands, evidence)[evidence.seeds@[s].ends@[b] as int],
{
    lemma_joint_sets(Seq::empty(), bands, evidence);
    let sets = joint_sets(bands, evidence);
    if 0 <= s < evidence.seeds@.len() && 0 <= a < evidence.seeds@[s].ends@.len() && 0 <= b
        < evidence.seeds@[s].ends@.len() {
        assert(sets[evidence.seeds@[s].ends@[a] as int] == sets[evidence.seeds@[s].ends@[0] as int]);
        assert(sets[evidence.seeds@[s].ends@[b] as int] == sets[evidence.seeds@[s].ends@[0] as int]);
    }
}

/// Nothing else is one joint: however the ends are labelled, if ends that
/// coincide and ends at one connector are labelled alike, so are any two ends
/// of one joint.
pub proof fn nothing_else_is_one_joint(label: Seq<int>, bands: Seq<Band>, evidence: Evidence, i: int, j: int)
    requires
        slots_fit(bands, evidence),
        label.len() == 2 * bands.len(),
        forall|k: int|
            0 <= k < evidence.coincident@.len() ==> label[(#[trigger] evidence.coincident@[k]).0 as int]
                == label[evidence.coincident@[k].1 as int],
        forall|s: int, k: int|
            0 <= s < evidence.seeds@.len() && 0 <= k < evidence.seeds@[s].ends@.len()
                ==> label[#[trigger] evidence.seeds@[s].ends@[k] as int] == label[evidence.seeds@[s].ends@[0] as int],
        0 <= i < 2 * bands.len(),
        0 <= j < 2 * bands.len(),
        joint_sets(bands, evidence)[i] == joint_sets(bands, evidence)[j],
    ensures
        label[i] == label[j],
{
    lemma_joint_sets(label, bands, evidence);
    let sets = joint_sets(bands, evidence);
    assert(label[sets[i]] == label[i]);
    assert(label[sets[j]] == label[j]);
}

/// Ends no further apart than the join are read as coinciding, and only those.
pub proof fn ends_within_the_join_coincide(pairs: Seq<EndPair>, join: u64, n: int)
    requires
        0 <= n <= pairs.len(),
    ensures
        forall|k: int|
            0 <= k < n && (#[trigger] pairs[k]).a != pairs[k].b && pairs[k].distance <= join ==> joints_of(
                pairs,
                join,
                n,
            ).contains((pairs[k].a, pairs[k].b)),
        forall|j: int|
            0 <= j < joints_of(pairs, join, n).len() ==> exists|k: int|
                0 <= k < n && #[trigger] joints_of(pairs, join, n)[j] == ((#[trigger] pairs[k]).a, pairs[k].b)
                    && pairs[k].a != pairs[k].b && pairs[k].distance <= join,
    decreases n,
{
    if n > 0 {
        ends_within_the_join_coincide(pairs, join, n - 1);
        let rest = joints_of(pairs, join, n - 1);
        let all = joints_of(pairs, join, n);
        let p = pairs[n - 1];
        if p.a != p.b && p.distance <= join {
            assert(all[rest.len() as int] == (p.a, p.b));
        }
        assert forall|k: int|
            0 <= k < n && (#[trigger] pairs[k]).a != pairs[k].b && pairs[k].distance <= join implies all.contains(
            (pairs[k].a, pairs[k].b),
        ) by {
            if k < n - 1 {
                assert(rest.contains((pairs[k].a, pairs[k].b)));
                let j = choose|j: int| 0 <= j < rest.len() && rest[j] == (pairs[k].a, pairs[k].b);
                assert(all[j] == rest[j]);
            }
        }
        assert forall|j: int| 0 <= j < all.len() implies exists|k: int|
            0 <= k < n && #[trigger] all[j] == ((#[trigger] pairs[k]).a, pairs[k].b) && pairs[k].a
                != pairs[k].b && pairs[k].distance <= join by {
            if j < rest.len() {
                assert(all[j] == rest[j]);
            } else {
                assert(all[j] == (pairs[n - 1].a, pairs[n - 1].b));
            }
        }
    }
}

/// A free end stands on another band within half its width and the slack, away
/// from both its ends, and nothing else stands on one.
pub proof fn a_free_end_stands_on_the_band_under_it(bands: Seq<Band>, seen: Seq<BandSeen>, join: u64, n: int)
    requires
        0 <= n <= seen.len(),
    ensures
        forall|k: int|
            0 <= k < n && on_band(bands, #[trigger] seen[k], join) ==> standings_of(bands, seen, join, n).contains(
                (Standing { slot: seen[k].slot, band: seen[k].band, height: seen[k].height }),
            ),
        forall|j: int|
            0 <= j < standings_of(bands, seen, join, n).len() ==> exists|k: int|
                0 <= k < n && on_band(bands, #[trigger] seen[k], join) && #[trigger] standings_of(
                    bands,
                    seen,
                    join,
                    n,
                )[j] == (Standing { slot: seen[k].slot, band: seen[k].band, height: seen[k].height }),
    decreases n,
{
    if n > 0 {
        a_free_end_stands_on_the_band_under_it(bands, seen, join, n - 1);
        let rest = standings_of(bands, seen, join, n - 1);
        let all = standings_of(bands, seen, join, n);
        let s = seen[n - 1];
        let here = Standing { slot: s.slot, band: s.band, height: s.height };
        if on_band(bands, s, join) {
            assert(all[rest.len() as int] == here);
        }
        assert forall|k: int| 0 <= k < n && on_band(bands, #[trigger] seen[k], join) implies all.contains(
            (Standing { slot: seen[k].slot, band: seen[k].band, height: seen[k].height }),
        ) by {
            if k < n - 1 {
                let x = Standing { slot: seen[k].slot, band: seen[k].band, height: seen[k].height };
                assert(rest.contains(x));
                let j = choose|j: int| 0 <= j < rest.len() && rest[j] == x;
                assert(all[j] == rest[j]);
            }
        }
        assert forall|j: int| 0 <= j < all.len() implies exists|k: int|
            0 <= k < n && on_band(bands, #[trigger] seen[k], join) && #[trigger] all[j] == (Standing {
                slot: seen[k].slot,
                band: seen[k].band,
                height: seen[k].height,
            }) by {
            if j < rest.len() {
                assert(all[j] == rest[j]);
            } else {
                assert(on_band(bands, seen[n - 1], join));
            }
        }
    }
}

/// Whether a sighting is of a free end over another band's middle.
pub open spec fn on_band(bands: Seq<Band>, s: BandSeen, join: u64) -> bool {
    &&& bands[s.slot as int / 2].corridor == NO_HOST
    &&& s.band != s.slot as int / 2
    &&& s.distance - s.half <= 250_000
    &&& s.to_a > join && s.to_b > join
}

// ---------------------------------------------------------------------------
// Members.
// ---------------------------------------------------------------------------

proof fn lemma_own(net: Net, r: int, n: int)
    requires
        0 <= n <= slot_count(net.bands),
    ensures
        forall|s: int|
            0 <= s < n && live(net.bands, s) && #[trigger] net.sets[s] == r ==> own_members(net, r, n).contains(
                end_of(net, s),
            ),
        forall|i: int|
            0 <= i < own_members(net, r, n).len() ==> exists|s: int|
                0 <= s < n && live(net.bands, s) && #[trigger] net.sets[s] == r && #[trigger] own_members(
                    net,
                    r,
                    n,
                )[i] == end_of(net, s),
    decreases n,
{
    if n > 0 {
        lemma_own(net, r, n - 1);
        let rest = own_members(net, r, n - 1);
        let all = own_members(net, r, n);
        if live(net.bands, n - 1) && net.sets[n - 1] == r {
            assert(all[rest.len() as int] == end_of(net, n - 1));
        }
        assert forall|s: int| 0 <= s < n && live(net.bands, s) && #[trigger] net.sets[s] == r implies all.contains(
            end_of(net, s),
        ) by {
            if s < n - 1 {
                assert(rest.contains(end_of(net, s)));
                let i = choose|i: int| 0 <= i < rest.len() && rest[i] == end_of(net, s);
                assert(all[i] == rest[i]);
            }
        }
        assert forall|i: int| 0 <= i < all.len() implies exists|s: int|
            0 <= s < n && live(net.bands, s) && #[trigger] net.sets[s] == r && #[trigger] all[i]
                == end_of(net, s) by {
            if i < rest.len() {
                assert(all[i] == rest[i]);
            } else {
                assert(net.sets[n - 1] == r);
            }
        }
    }
}

/// One end of a band, as it stands at its joint.
pub open spec fn end_of(net: Net, s: int) -> Member {
    let b = net.bands[s / 2];
    Member {
        band: (s / 2) as u32,
        height: if s % 2 == 0 {
            b.height_a
        } else {
            b.height_b
        },
        hosted: b.corridor != NO_HOST,
    }
}

/// What an end stands on, as it stands at the end's joint.
pub open spec fn stood_on(net: Net, s: Standing) -> Member {
    Member { band: s.band, height: s.height, hosted: net.bands[s.band as int].corridor != NO_HOST }
}

/// Whether a free end stands on a band other than its own.
pub open spec fn stands_elsewhere(net: Net, s: Standing) -> bool {
    net.bands[s.slot as int / 2].corridor == NO_HOST && s.band != s.slot as int / 2
}

proof fn lemma_stood(net: Net, r: int, n: int)
    requires
        0 <= n <= net.standing.len(),
    ensures
        forall|k: int|
            0 <= k < n && stands_elsewhere(net, #[trigger] net.standing[k]) && net.sets[net.standing[k].slot as int] == r
                ==> standing_members(net, r, n).contains(stood_on(net, net.standing[k])),
        forall|i: int|
            0 <= i < standing_members(net, r, n).len() ==> exists|k: int|
                0 <= k < n && stands_elsewhere(net, #[trigger] net.standing[k])
                    && net.sets[net.standing[k].slot as int] == r && #[trigger] standing_members(net, r, n)[i]
                    == stood_on(net, net.standing[k]),
    decreases n,
{
    if n > 0 {
        lemma_stood(net, r, n - 1);
        let rest = standing_members(net, r, n - 1);
        let all = standing_members(net, r, n);
        let last = net.standing[n - 1];
        if stands_elsewhere(net, last) && net.sets[last.slot as int] == r {
            assert(all[rest.len() as int] == stood_on(net, last));
        }
        assert forall|k: int|
            0 <= k < n && stands_elsewhere(net, #[trigger] net.standing[k]) && net.sets[net.standing[k].slot as int] == r
            implies all.contains(stood_on(net, net.standing[k])) by {
            if k < n - 1 {
                let x = stood_on(net, net.standing[k]);
                assert(rest.contains(x));
                let i = choose|i: int| 0 <= i < rest.len() && rest[i] == x;
                assert(all[i] == rest[i]);
            }
        }
        assert forall|i: int| 0 <= i < all.len() implies exists|k: int|
            0 <= k < n && stands_elsewhere(net, #[trigger] net.standing[k])
                && net.sets[net.standing[k].slot as int] == r && #[trigger] all[i] == stood_on(
                net,
                net.standing[k],
            ) by {
            if i < rest.len() {
                assert(all[i] == rest[i]);
            } else {
                assert(stands_elsewhere(net, net.standing[n - 1]));
            }
        }
    }
}

proof fn lemma_stub(net: Net, r: int, n: int)
    requires
        0 <= n <= net.stubs.len(),
    ensures
        forall|k: int|
            0 <= k < n && stub_host(net, #[trigger] net.stubs[k]) is Some && net.sets[net.stubs[k].slot as int] == r
                ==> stub_members(net, r, n).contains(seated_on(stub_host(net, net.stubs[k])->0)),
        forall|i: int|
            0 <= i < stub_members(net, r, n).len() ==> exists|k: int|
                0 <= k < n && stub_host(net, #[trigger] net.stubs[k]) is Some && net.sets[net.stubs[k].slot as int] == r
                    && #[trigger] stub_members(net, r, n)[i] == seated_on(stub_host(net, net.stubs[k])->0),
    decreases n,
{
    if n > 0 {
        lemma_stub(net, r, n - 1);
        let rest = stub_members(net, r, n - 1);
        let all = stub_members(net, r, n);
        let last = net.stubs[n - 1];
        if stub_host(net, last) is Some && net.sets[last.slot as int] == r {
            assert(all[rest.len() as int] == seated_on(stub_host(net, last)->0));
        }
        assert forall|k: int|
            0 <= k < n && stub_host(net, #[trigger] net.stubs[k]) is Some && net.sets[net.stubs[k].slot as int] == r
            implies all.contains(seated_on(stub_host(net, net.stubs[k])->0)) by {
            if k < n - 1 {
                let x = seated_on(stub_host(net, net.stubs[k])->0);
                assert(rest.contains(x));
                let i = choose|i: int| 0 <= i < rest.len() && rest[i] == x;
                assert(all[i] == rest[i]);
            }
        }
        assert forall|i: int| 0 <= i < all.len() implies exists|k: int|
            0 <= k < n && stub_host(net, #[trigger] net.stubs[k]) is Some && net.sets[net.stubs[k].slot as int] == r
                && #[trigger] all[i] == seated_on(stub_host(net, net.stubs[k])->0) by {
            if i < rest.len() {
                assert(all[i] == rest[i]);
            } else {
                assert(stub_host(net, net.stubs[n - 1]) is Some);
            }
        }
    }
}

/// A hosted band a stub takes its seat from, as it stands at the stub's joint.
pub open spec fn seated_on(h: crate::synth::walkgraph::Near) -> Member {
    Member { band: h.band, height: h.height, hosted: true }
}

/// Every end on the graph stands at its joint, at its own height; so does the
/// band a free end stands on, and the hosted band a stub takes its seat from.
pub proof fn everyone_stands_at_their_joint(net: Net, s: int, k: int, t: int)
    ensures
        0 <= s < 2 * net.bands.len() && net.bands[s / 2].level == 0 ==> joint_members(net, net.sets[s]).contains(
            end_of(net, s),
        ),
        0 <= k < net.standing.len() && stands_elsewhere(net, net.standing[k]) ==> joint_members(
            net,
            net.sets[net.standing[k].slot as int],
        ).contains(stood_on(net, net.standing[k])),
        0 <= t < net.stubs.len() && stub_host(net, net.stubs[t]) is Some ==> joint_members(
            net,
            net.sets[net.stubs[t].slot as int],
        ).contains(seated_on(stub_host(net, net.stubs[t])->0)),
{
    if 0 <= s < 2 * net.bands.len() && net.bands[s / 2].level == 0 {
        let r = net.sets[s];
        lemma_own(net, r, slot_count(net.bands));
        assert(live(net.bands, s));
        let own = own_members(net, r, slot_count(net.bands));
        let i = choose|i: int| 0 <= i < own.len() && own[i] == end_of(net, s);
        assert(joint_members(net, r)[i] == own[i]);
    }
    if 0 <= k < net.standing.len() && stands_elsewhere(net, net.standing[k]) {
        let r = net.sets[net.standing[k].slot as int];
        lemma_stood(net, r, net.standing.len() as int);
        let own = own_members(net, r, slot_count(net.bands));
        let st = standing_members(net, r, net.standing.len() as int);
        let x = stood_on(net, net.standing[k]);
        let i = choose|i: int| 0 <= i < st.len() && st[i] == x;
        assert(joint_members(net, r)[own.len() + i] == st[i]);
    }
    if 0 <= t < net.stubs.len() && stub_host(net, net.stubs[t]) is Some {
        let r = net.sets[net.stubs[t].slot as int];
        lemma_stub(net, r, net.stubs.len() as int);
        let own = own_members(net, r, slot_count(net.bands));
        let st = standing_members(net, r, net.standing.len() as int);
        let stub = stub_members(net, r, net.stubs.len() as int);
        let x = seated_on(stub_host(net, net.stubs[t])->0);
        let i = choose|i: int| 0 <= i < stub.len() && stub[i] == x;
        assert(joint_members(net, r)[own.len() + st.len() + i] == stub[i]);
    }
}

/// Nobody else stands at a joint.
pub proof fn nobody_else_stands_at_a_joint(net: Net, r: int, i: int)
    requires
        0 <= i < joint_members(net, r).len(),
    ensures
        ({
            let m = joint_members(net, r)[i];
            ||| exists|s: int|
                0 <= s < 2 * net.bands.len() && net.bands[s / 2].level == 0 && #[trigger] net.sets[s] == r && m
                    == end_of(net, s)
            ||| exists|k: int|
                0 <= k < net.standing.len() && stands_elsewhere(net, #[trigger] net.standing[k])
                    && net.sets[net.standing[k].slot as int] == r && m == stood_on(net, net.standing[k])
            ||| exists|t: int|
                0 <= t < net.stubs.len() && stub_host(net, #[trigger] net.stubs[t]) is Some
                    && net.sets[net.stubs[t].slot as int] == r && m == seated_on(
                    stub_host(net, net.stubs[t])->0,
                )
        }),
{
    let own = own_members(net, r, slot_count(net.bands));
    let st = standing_members(net, r, net.standing.len() as int);
    let stub = stub_members(net, r, net.stubs.len() as int);
    lemma_own(net, r, slot_count(net.bands));
    lemma_stood(net, r, net.standing.len() as int);
    lemma_stub(net, r, net.stubs.len() as int);
    let m = joint_members(net, r)[i];
    if i < own.len() {
        assert(m == own[i]);
    } else if i < own.len() + st.len() {
        assert(m == st[i - own.len()]);
    } else {
        assert(m == stub[i - own.len() - st.len()]);
    }
}

/// Only a free band without a source is a stub.
pub proof fn only_a_free_band_without_a_source_is_a_stub(net: Net, s: StubEnd)
    ensures
        stub_host(net, s) is Some ==> net.bands[s.slot as int / 2].corridor == NO_HOST && net.sources[s.slot as int
            / 2] == 0,
        net.bands[s.slot as int / 2].corridor == NO_HOST && (s.slot as int / 2) < net.sources.len() && net.sources[
        s.slot as int / 2] == 0 ==> is_stub(net, s.slot as int),
{
}

// ---------------------------------------------------------------------------
// Street surfaces.
// ---------------------------------------------------------------------------

/// The street surface at a joint is the mean of those its connectors give,
/// rounded down; there is none where no connector with a surface has its first
/// end there.
pub proof fn a_joints_street_is_the_mean_of_its_connectors(net: Net, r: int, heights: Seq<int>, ones: Seq<int>)
    requires
        heights.len() == net.seeds.len(),
        ones.len() == net.seeds.len(),
        forall|k: int|
            0 <= k < net.seeds.len() ==> #[trigger] heights[k] == if gives_street(net, k, r) {
                net.seeds[k].street->0 as int
            } else {
                0
            },
        forall|k: int|
            0 <= k < net.seeds.len() ==> #[trigger] ones[k] == if gives_street(net, k, r) {
                1int
            } else {
                0
            },
    ensures
        street_of(net, r) is Some <==> total(ones) > 0,
        street_of(net, r) matches Some(h) ==> h * total(ones) <= total(heights) < (h + 1) * total(ones),
{
    let n = net.seeds.len() as int;
    lemma_streets(net, r, heights, ones, n);
    assert(heights.take(n) =~= heights && ones.take(n) =~= ones);
    if total(ones) > 0 {
        a_mean_is_rounded_down(total(heights), total(ones));
    }
}

pub open spec fn gives_street(net: Net, k: int, r: int) -> bool {
    &&& net.seeds[k].ends@.len() > 0
    &&& net.seeds[k].street is Some
    &&& net.sets[net.seeds[k].ends@[0] as int] == r
}

proof fn lemma_streets(net: Net, r: int, heights: Seq<int>, ones: Seq<int>, n: int)
    requires
        0 <= n <= net.seeds.len(),
        heights.len() == net.seeds.len(),
        ones.len() == net.seeds.len(),
        forall|k: int|
            0 <= k < net.seeds.len() ==> #[trigger] heights[k] == if gives_street(net, k, r) {
                net.seeds[k].street->0 as int
            } else {
                0
            },
        forall|k: int|
            0 <= k < net.seeds.len() ==> #[trigger] ones[k] == if gives_street(net, k, r) {
                1int
            } else {
                0
            },
    ensures
        street_sum(net, r, n) == total(heights.take(n)),
        street_count(net, r, n) == total(ones.take(n)),
    decreases n,
{
    if n > 0 {
        lemma_streets(net, r, heights, ones, n - 1);
        assert(heights.take(n).drop_last() =~= heights.take(n - 1));
        assert(ones.take(n).drop_last() =~= ones.take(n - 1));
        assert(heights[n - 1] == heights.take(n).last());
        assert(ones[n - 1] == ones.take(n).last());
    }
}

// ---------------------------------------------------------------------------
// Counts.
// ---------------------------------------------------------------------------

/// Every standing that joins a band to a joint is counted, and every stub that
/// takes a seat.
pub proof fn standings_and_stubs_are_counted(net: Net, stood: Seq<int>, seated: Seq<int>)
    requires
        stood.len() == net.standing.len(),
        seated.len() == net.stubs.len(),
        forall|k: int|
            0 <= k < stood.len() ==> #[trigger] stood[k] == if stands_elsewhere(net, net.standing[k]) {
                1int
            } else {
                0
            },
        forall|k: int|
            0 <= k < seated.len() ==> #[trigger] seated[k] == if stub_host(net, net.stubs[k]) is Some {
                1int
            } else {
                0
            },
    ensures
        standing_count(net, net.standing.len() as int) == total(stood),
        stub_count(net, net.stubs.len() as int) == total(seated),
{
    lemma_stood_count(net, stood, stood.len() as int);
    lemma_stub_count(net, seated, seated.len() as int);
    assert(stood.take(stood.len() as int) =~= stood);
    assert(seated.take(seated.len() as int) =~= seated);
}

proof fn lemma_stood_count(net: Net, ones: Seq<int>, n: int)
    requires
        0 <= n <= ones.len() == net.standing.len(),
        forall|k: int|
            0 <= k < ones.len() ==> #[trigger] ones[k] == if stands_elsewhere(net, net.standing[k]) {
                1int
            } else {
                0
            },
    ensures
        standing_count(net, n) == total(ones.take(n)),
    decreases n,
{
    if n > 0 {
        lemma_stood_count(net, ones, n - 1);
        assert(ones.take(n).drop_last() =~= ones.take(n - 1));
        assert(ones[n - 1] == ones.take(n).last());
    }
}

proof fn lemma_stub_count(net: Net, ones: Seq<int>, n: int)
    requires
        0 <= n <= ones.len() == net.stubs.len(),
        forall|k: int|
            0 <= k < ones.len() ==> #[trigger] ones[k] == if stub_host(net, net.stubs[k]) is Some {
                1int
            } else {
                0
            },
    ensures
        stub_count(net, n) == total(ones.take(n)),
    decreases n,
{
    if n > 0 {
        lemma_stub_count(net, ones, n - 1);
        assert(ones.take(n).drop_last() =~= ones.take(n - 1));
        assert(ones[n - 1] == ones.take(n).last());
    }
}

/// Whether two different bands stand at a joint.
pub open spec fn several_bands(m: Seq<Member>) -> bool {
    exists|i: int, j: int|
        0 <= i < m.len() && 0 <= j < m.len() && (#[trigger] m[i]).band != (#[trigger] m[j]).band
}

/// Whether bands of two different corridors stand at a joint.
pub open spec fn several_corridors(net: Net, m: Seq<Member>) -> bool {
    exists|i: int, j: int|
        0 <= i < m.len() && 0 <= j < m.len() && net.bands[(#[trigger] m[i]).band as int].corridor
            != net.bands[(#[trigger] m[j]).band as int].corridor
}

/// A joint is of several bands where any two of its members differ, and of
/// several corridors likewise.
pub proof fn any_two_members_make_several(net: Net, m: Seq<Member>)
    ensures
        multi_band(m) == several_bands(m),
        multi_corridor(net.bands, m) == several_corridors(net, m),
{
    if several_bands(m) {
        let (i, j) = choose|i: int, j: int|
            0 <= i < m.len() && 0 <= j < m.len() && (#[trigger] m[i]).band != (#[trigger] m[j]).band;
        assert(m[i].band != m[0].band || m[j].band != m[0].band);
    }
    if multi_band(m) {
        let i = choose|i: int| 0 <= i < m.len() && (#[trigger] m[i]).band != m[0].band;
        assert(m[i].band != m[0].band);
    }
    if several_corridors(net, m) {
        let (i, j) = choose|i: int, j: int|
            0 <= i < m.len() && 0 <= j < m.len() && net.bands[(#[trigger] m[i]).band as int].corridor
                != net.bands[(#[trigger] m[j]).band as int].corridor;
        assert(net.bands[m[i].band as int].corridor != net.bands[m[0].band as int].corridor
            || net.bands[m[j].band as int].corridor != net.bands[m[0].band as int].corridor);
    }
    if multi_corridor(net.bands, m) {
        let i = choose|i: int|
            0 <= i < m.len() && net.bands[(#[trigger] m[i]).band as int].corridor != net.bands[m[0].band as int].corridor;
        assert(net.bands[m[i].band as int].corridor != net.bands[m[0].band as int].corridor);
    }
}

proof fn lemma_extremes(m: Seq<Member>, n: int)
    requires
        1 <= n <= m.len(),
    ensures
        forall|i: int| 0 <= i < n ==> lowest(m, n) <= (#[trigger] m[i]).height <= highest(m, n),
        exists|i: int| 0 <= i < n && (#[trigger] m[i]).height == lowest(m, n),
        exists|i: int| 0 <= i < n && (#[trigger] m[i]).height == highest(m, n),
    decreases n,
{
    if n > 1 {
        lemma_extremes(m, n - 1);
        if m[n - 1].height < lowest(m, n - 1) {
            assert(m[n - 1].height == lowest(m, n));
        }
        if m[n - 1].height > highest(m, n - 1) {
            assert(m[n - 1].height == highest(m, n));
        }
    } else {
        assert(m[0].height == lowest(m, n));
        assert(m[0].height == highest(m, n));
    }
}

/// No two seats at a joint are further apart than its spread, and two of them
/// are that far apart.
pub proof fn the_spread_is_the_widest_gap(m: Seq<Member>)
    requires
        m.len() > 0,
    ensures
        forall|i: int, j: int|
            0 <= i < m.len() && 0 <= j < m.len() ==> (#[trigger] m[i]).height - (#[trigger] m[j]).height
                <= seat_spread(m),
        exists|i: int, j: int|
            0 <= i < m.len() && 0 <= j < m.len() && (#[trigger] m[i]).height - (#[trigger] m[j]).height
                == seat_spread(m),
{
    let n = m.len() as int;
    lemma_extremes(m, n);
    let i = choose|i: int| 0 <= i < n && (#[trigger] m[i]).height == highest(m, n);
    let j = choose|j: int| 0 <= j < n && (#[trigger] m[j]).height == lowest(m, n);
    assert(m[i].height - m[j].height == seat_spread(m));
}

/// What each joint adds to a count: one where it stands out, nought at every
/// slot that names no joint.
pub open spec fn tallies(net: Net, ones: Seq<int>, stands_out: spec_fn(int) -> bool) -> bool {
    &&& ones.len() == 2 * net.bands.len()
    &&& forall|s: int|
        0 <= s < ones.len() ==> #[trigger] ones[s] == if net.bands[s / 2].level == 0 && net.sets[s] == s
            && stands_out(s) {
            1int
        } else {
            0
        }
}

/// The census counts every joint once: those of several bands, those of several
/// corridors, those a street pins, and those whose offer was out of reach.
pub proof fn the_census_counts_every_joint_once(
    net: Net,
    multi: Seq<int>,
    corridors: Seq<int>,
    streets: Seq<int>,
    declines: Seq<int>,
)
    requires
        tallies(net, multi, |s: int| several_bands(joint_members(net, s))),
        tallies(net, corridors, |s: int| several_corridors(net, joint_members(net, s))),
        tallies(net, streets, |s: int| street_pinned(joint_members(net, s), street_of(net, s))),
        tallies(net, declines, |s: int| declined(joint_members(net, s), street_of(net, s))),
    ensures
        ({
            let c = census_of(net, 2 * net.bands.len() as int);
            &&& c.multi == total(multi)
            &&& c.multi_corridor == total(corridors)
            &&& c.street_pins == total(streets)
            &&& c.out_of_reach == total(declines)
        }),
{
    let n = 2 * net.bands.len() as int;
    lemma_census(net, multi, corridors, streets, declines, n);
    assert(multi.take(n) =~= multi);
    assert(corridors.take(n) =~= corridors);
    assert(streets.take(n) =~= streets);
    assert(declines.take(n) =~= declines);
}

proof fn lemma_census(net: Net, multi: Seq<int>, corridors: Seq<int>, streets: Seq<int>, declines: Seq<int>, n: int)
    requires
        tallies(net, multi, |s: int| several_bands(joint_members(net, s))),
        tallies(net, corridors, |s: int| several_corridors(net, joint_members(net, s))),
        tallies(net, streets, |s: int| street_pinned(joint_members(net, s), street_of(net, s))),
        tallies(net, declines, |s: int| declined(joint_members(net, s), street_of(net, s))),
        0 <= n <= 2 * net.bands.len(),
    ensures
        census_of(net, n).multi == total(multi.take(n)),
        census_of(net, n).multi_corridor == total(corridors.take(n)),
        census_of(net, n).street_pins == total(streets.take(n)),
        census_of(net, n).out_of_reach == total(declines.take(n)),
    decreases n,
{
    if n > 0 {
        lemma_census(net, multi, corridors, streets, declines, n - 1);
        let s = n - 1;
        any_two_members_make_several(net, joint_members(net, s));
        let m = joint_members(net, s);
        if several_corridors(net, m) {
            let (i, j) = choose|i: int, j: int|
                0 <= i < m.len() && 0 <= j < m.len() && net.bands[(#[trigger] m[i]).band as int].corridor
                    != net.bands[(#[trigger] m[j]).band as int].corridor;
            assert(m[i].band != m[j].band);
        }
        assert(multi.take(n).drop_last() =~= multi.take(n - 1));
        assert(corridors.take(n).drop_last() =~= corridors.take(n - 1));
        assert(streets.take(n).drop_last() =~= streets.take(n - 1));
        assert(declines.take(n).drop_last() =~= declines.take(n - 1));
        assert(multi[s] == multi.take(n).last());
        assert(corridors[s] == corridors.take(n).last());
        assert(streets[s] == streets.take(n).last());
        assert(declines[s] == declines.take(n).last());
    }
}

/// Every joint of several bands is named with its spread, and nothing else is.
pub proof fn every_joint_of_several_bands_has_its_spread_named(net: Net, n: int)
    requires
        0 <= n <= 2 * net.bands.len() <= u32::MAX,
    ensures
        forall|s: int|
            0 <= s < n && net.bands[s / 2].level == 0 && #[trigger] net.sets[s] == s && several_bands(
                joint_members(net, s),
            ) ==> census_of(net, n).spreads.contains(spread_named(net, s)),
        forall|i: int|
            0 <= i < census_of(net, n).spreads.len() ==> exists|s: int|
                0 <= s < n && net.bands[s / 2].level == 0 && #[trigger] net.sets[s] == s && several_bands(
                    joint_members(net, s),
                ) && #[trigger] census_of(net, n).spreads[i] == spread_named(net, s),
    decreases n,
{
    if n > 0 {
        every_joint_of_several_bands_has_its_spread_named(net, n - 1);
        let rest = census_of(net, n - 1).spreads;
        let all = census_of(net, n).spreads;
        any_two_members_make_several(net, joint_members(net, n - 1));
        lemma_seated(joint_members(net, n - 1));
        if is_node(net, n - 1) && several_bands(joint_members(net, n - 1)) {
            assert(all[rest.len() as int] == spread_named(net, n - 1));
        }
        assert forall|s: int|
            0 <= s < n && net.bands[s / 2].level == 0 && #[trigger] net.sets[s] == s && several_bands(
                joint_members(net, s),
            ) implies all.contains(spread_named(net, s)) by {
            if s < n - 1 {
                assert(rest.contains(spread_named(net, s)));
                let i = choose|i: int| 0 <= i < rest.len() && rest[i] == spread_named(net, s);
                assert(all[i] == rest[i]);
            }
        }
        assert forall|i: int| 0 <= i < all.len() implies exists|s: int|
            0 <= s < n && net.bands[s / 2].level == 0 && #[trigger] net.sets[s] == s && several_bands(
                joint_members(net, s),
            ) && #[trigger] all[i] == spread_named(net, s) by {
            if i < rest.len() {
                assert(all[i] == rest[i]);
            } else {
                assert(net.sets[n - 1] == n - 1);
            }
        }
    }
}

/// What is named of a joint: its spread, which it is, and whether hosted and
/// free bands meet there.
pub open spec fn spread_named(net: Net, s: int) -> (u64, u32, bool) {
    let m = joint_members(net, s);
    (
        seat_spread(m) as u64,
        s as u32,
        (exists|i: int| 0 <= i < m.len() && (#[trigger] m[i]).hosted) && (exists|i: int|
            0 <= i < m.len() && !(#[trigger] m[i]).hosted),
    )
}

proof fn lemma_seated(m: Seq<Member>)
    ensures
        crate::synth::walkgraph::has_seat(m, true) == (exists|i: int| 0 <= i < m.len() && (#[trigger] m[i]).hosted),
        crate::synth::walkgraph::has_seat(m, false) == (exists|i: int| 0 <= i < m.len() && !(#[trigger] m[i]).hosted),
{
    lemma_seat_counted(m, true, m.len() as int);
    lemma_seat_counted(m, false, m.len() as int);
}

proof fn lemma_seat_counted(m: Seq<Member>, hosted: bool, n: int)
    requires
        0 <= n <= m.len(),
    ensures
        crate::synth::walkgraph::seat_count(m, hosted, n) >= 0,
        (crate::synth::walkgraph::seat_count(m, hosted, n) > 0) == (exists|i: int|
            0 <= i < n && (#[trigger] m[i]).hosted == hosted),
    decreases n,
{
    if n > 0 {
        lemma_seat_counted(m, hosted, n - 1);
        if m[n - 1].hosted == hosted {
            assert(m[n - 1].hosted == hosted);
        }
    }
}

// ---------------------------------------------------------------------------
// Connectors.
// ---------------------------------------------------------------------------

proof fn lemma_lines_carrying(lines: Seq<WalkLine>, id: u64, n: int, a: int, b: int)
    requires
        0 <= n <= lines.len(),
    ensures
        lines_carrying(lines, id, n) >= 0,
        lines_carrying(lines, id, n) >= 1 <==> exists|i: int| 0 <= i < n && (#[trigger] lines[i]).connectors@.contains(id),
        0 <= a < b < n && lines[a].connectors@.contains(id) && lines[b].connectors@.contains(id) ==> lines_carrying(
            lines,
            id,
            n,
        ) >= 2,
        lines_carrying(lines, id, n) >= 2 ==> exists|i: int, j: int|
            0 <= i < j < n && (#[trigger] lines[i]).connectors@.contains(id) && (#[trigger] lines[j]).connectors@.contains(id),
    decreases n,
{
    if n > 0 {
        lemma_lines_carrying(lines, id, n - 1, a, b);
        if lines_carrying(lines, id, n) >= 1 && !lines[n - 1].connectors@.contains(id) {
            let i = choose|i: int| 0 <= i < n - 1 && (#[trigger] lines[i]).connectors@.contains(id);
            assert(lines[i].connectors@.contains(id));
        }
        if lines[n - 1].connectors@.contains(id) {
            if lines_carrying(lines, id, n - 1) >= 1 {
                let i = choose|i: int| 0 <= i < n - 1 && (#[trigger] lines[i]).connectors@.contains(id);
                assert(0 <= i < n - 1 < n && lines[i].connectors@.contains(id) && lines[n - 1].connectors@.contains(id));
            }
        } else if lines_carrying(lines, id, n - 1) >= 2 {
            let (i, j) = choose|i: int, j: int|
                0 <= i < j < n - 1 && (#[trigger] lines[i]).connectors@.contains(id) && (#[trigger] lines[j]).connectors@.contains(id);
            assert(lines[i].connectors@.contains(id) && lines[j].connectors@.contains(id));
        }
    }
}

proof fn lemma_streets_carrying(streets: Seq<Street>, id: u64, n: int, a: int, b: int)
    requires
        0 <= n <= streets.len(),
    ensures
        streets_carrying(streets, id, n) >= 0,
        streets_carrying(streets, id, n) >= 1 <==> exists|i: int| 0 <= i < n && (#[trigger] streets[i]).connectors@.contains(id),
        0 <= a < b < n && streets[a].connectors@.contains(id) && streets[b].connectors@.contains(id) ==> streets_carrying(
            streets,
            id,
            n,
        ) >= 2,
        streets_carrying(streets, id, n) >= 2 ==> exists|i: int, j: int|
            0 <= i < j < n && (#[trigger] streets[i]).connectors@.contains(id) && (#[trigger] streets[j]).connectors@.contains(id),
    decreases n,
{
    if n > 0 {
        lemma_streets_carrying(streets, id, n - 1, a, b);
        if streets_carrying(streets, id, n) >= 1 && !streets[n - 1].connectors@.contains(id) {
            let i = choose|i: int| 0 <= i < n - 1 && (#[trigger] streets[i]).connectors@.contains(id);
            assert(streets[i].connectors@.contains(id));
        }
        if streets[n - 1].connectors@.contains(id) {
            if streets_carrying(streets, id, n - 1) >= 1 {
                let i = choose|i: int| 0 <= i < n - 1 && (#[trigger] streets[i]).connectors@.contains(id);
                assert(0 <= i < n - 1 < n && streets[i].connectors@.contains(id) && streets[n - 1].connectors@.contains(id));
            }
        } else if streets_carrying(streets, id, n - 1) >= 2 {
            let (i, j) = choose|i: int, j: int|
                0 <= i < j < n - 1 && (#[trigger] streets[i]).connectors@.contains(id) && (#[trigger] streets[j]).connectors@.contains(id);
            assert(streets[i].connectors@.contains(id) && streets[j].connectors@.contains(id));
        }
    }
}

/// Whether two features carry a connector: two lines, two streets, or a line
/// and a street.
pub open spec fn two_carry(lines: Seq<WalkLine>, streets: Seq<Street>, id: u64) -> bool {
    ||| exists|i: int, j: int|
        0 <= i < j < lines.len() && (#[trigger] lines[i]).connectors@.contains(id) && (#[trigger] lines[j]).connectors@.contains(id)
    ||| exists|i: int, j: int|
        0 <= i < j < streets.len() && (#[trigger] streets[i]).connectors@.contains(id) && (#[trigger] streets[j]).connectors@.contains(id)
    ||| exists|i: int, j: int|
        0 <= i < lines.len() && 0 <= j < streets.len() && (#[trigger] lines[i]).connectors@.contains(id) && (
        #[trigger] streets[j]).connectors@.contains(id)
}

/// A connector is shared where two features carry it, however often each names
/// it.
pub proof fn a_connector_is_shared_by_two_features(lines: Seq<WalkLine>, streets: Seq<Street>, id: u64)
    ensures
        carriers(lines, streets, id) >= 2 <==> two_carry(lines, streets, id),
{
    let n = lines.len() as int;
    let m = streets.len() as int;
    lemma_lines_carrying(lines, id, n, 0, 0);
    lemma_streets_carrying(streets, id, m, 0, 0);
    if exists|i: int, j: int|
        0 <= i < j < n && (#[trigger] lines[i]).connectors@.contains(id) && (#[trigger] lines[j]).connectors@.contains(id) {
        let (i, j) = choose|i: int, j: int|
            0 <= i < j < n && (#[trigger] lines[i]).connectors@.contains(id) && (#[trigger] lines[j]).connectors@.contains(id);
        lemma_lines_carrying(lines, id, n, i, j);
    }
    if exists|i: int, j: int|
        0 <= i < j < m && (#[trigger] streets[i]).connectors@.contains(id) && (#[trigger] streets[j]).connectors@.contains(id) {
        let (i, j) = choose|i: int, j: int|
            0 <= i < j < m && (#[trigger] streets[i]).connectors@.contains(id) && (#[trigger] streets[j]).connectors@.contains(id);
        lemma_streets_carrying(streets, id, m, i, j);
    }
    if lines_carrying(lines, id, n) == 1 && streets_carrying(streets, id, m) >= 1 {
        let i = choose|i: int| 0 <= i < n && (#[trigger] lines[i]).connectors@.contains(id);
        let j = choose|j: int| 0 <= j < m && (#[trigger] streets[j]).connectors@.contains(id);
        assert(lines[i].connectors@.contains(id) && streets[j].connectors@.contains(id));
    }
}

proof fn lemma_shared_on_line(lines: Seq<WalkLine>, streets: Seq<Street>, line: int, n: int)
    requires
        0 <= n <= lines[line].connectors@.len(),
    ensures
        forall|c: int|
            0 <= c < n ==> (shared_on_line(lines, streets, line, n).contains((line, c)) <==> carriers(
                lines,
                streets,
                #[trigger] lines[line].connectors@[c],
            ) >= 2),
        forall|i: int|
            0 <= i < shared_on_line(lines, streets, line, n).len() ==> {
                let at = #[trigger] shared_on_line(lines, streets, line, n)[i];
                at.0 == line && 0 <= at.1 < n
            },
    decreases n,
{
    if n > 0 {
        lemma_shared_on_line(lines, streets, line, n - 1);
        let rest = shared_on_line(lines, streets, line, n - 1);
        let all = shared_on_line(lines, streets, line, n);
        if carriers(lines, streets, lines[line].connectors@[n - 1]) >= 2 {
            assert(all[rest.len() as int] == (line, n - 1));
        }
        assert forall|i: int| 0 <= i < all.len() implies ({
            let at = #[trigger] all[i];
            at.0 == line && 0 <= at.1 < n
        }) by {
            if i < rest.len() {
                assert(all[i] == rest[i]);
            }
        }
        assert forall|c: int| 0 <= c < n implies (all.contains((line, c)) <==> carriers(
            lines,
            streets,
            #[trigger] lines[line].connectors@[c],
        ) >= 2) by {
            if c < n - 1 {
                if rest.contains((line, c)) {
                    let i = choose|i: int| 0 <= i < rest.len() && rest[i] == (line, c);
                    assert(all[i] == rest[i]);
                }
                if all.contains((line, c)) {
                    let i = choose|i: int| 0 <= i < all.len() && all[i] == (line, c);
                    if i < rest.len() {
                        assert(rest[i] == (line, c));
                    }
                }
            } else if all.contains((line, c)) {
                let i = choose|i: int| 0 <= i < all.len() && all[i] == (line, c);
                if i < rest.len() {
                    assert(rest[i] == (line, c));
                }
            }
        }
    }
}

proof fn lemma_shared(lines: Seq<WalkLine>, streets: Seq<Street>, n: int)
    requires
        0 <= n <= lines.len(),
    ensures
        forall|l: int, c: int|
            0 <= l < n && 0 <= c < lines[l].connectors@.len() ==> (shared_positions(lines, streets, n).contains((l, c)) <==> (
            carriers(lines, streets, #[trigger] lines[l].connectors@[c]) >= 2 && lines[l].vertices >= 2)),
        forall|i: int|
            0 <= i < shared_positions(lines, streets, n).len() ==> {
                let at = #[trigger] shared_positions(lines, streets, n)[i];
                0 <= at.0 < n && 0 <= at.1 < lines[at.0].connectors@.len()
            },
    decreases n,
{
    if n > 0 {
        lemma_shared(lines, streets, n - 1);
        let rest = shared_positions(lines, streets, n - 1);
        let all = shared_positions(lines, streets, n);
        let m = lines[n - 1].connectors@.len() as int;
        let more = shared_on_line(lines, streets, n - 1, m);
        lemma_shared_on_line(lines, streets, n - 1, m);
        assert forall|i: int| 0 <= i < all.len() implies ({
            let at = #[trigger] all[i];
            0 <= at.0 < n && 0 <= at.1 < lines[at.0].connectors@.len()
        }) by {
            if i < rest.len() {
                assert(all[i] == rest[i]);
            } else {
                assert(all[i] == more[i - rest.len()]);
            }
        }
        assert forall|l: int, c: int| 0 <= l < n && 0 <= c < lines[l].connectors@.len() implies (all.contains((l, c)) <==> (
        carriers(lines, streets, #[trigger] lines[l].connectors@[c]) >= 2 && lines[l].vertices >= 2)) by {
            if rest.contains((l, c)) {
                let i = choose|i: int| 0 <= i < rest.len() && rest[i] == (l, c);
                assert(all[i] == rest[i]);
            }
            if lines[n - 1].vertices >= 2 && more.contains((l, c)) {
                let i = choose|i: int| 0 <= i < more.len() && more[i] == (l, c);
                assert(all[rest.len() + i] == more[i]);
            }
            if all.contains((l, c)) {
                let i = choose|i: int| 0 <= i < all.len() && all[i] == (l, c);
                if i < rest.len() {
                    assert(rest[i] == (l, c));
                } else {
                    assert(more[i - rest.len()] == (l, c));
                }
            }
            if l == n - 1 {
                assert(more.contains((l, c)) <==> carriers(lines, streets, lines[l].connectors@[c]) >= 2);
            }
        }
    }
}

/// Every connector of a line that has a length is a seed where two features
/// carry it, and no other is.
pub proof fn every_shared_connector_is_a_seed(lines: Seq<WalkLine>, streets: Seq<Street>, l: int, c: int)
    requires
        0 <= l < lines.len(),
        0 <= c < lines[l].connectors@.len(),
    ensures
        shared_positions(lines, streets, lines.len() as int).contains((l, c)) <==> (two_carry(
            lines,
            streets,
            lines[l].connectors@[c],
        ) && lines[l].vertices >= 2),
{
    lemma_shared(lines, streets, lines.len() as int);
    a_connector_is_shared_by_two_features(lines, streets, lines[l].connectors@[c]);
}

/// What each street gives of its surface at a connector, row by row.
pub open spec fn surfaces_at(streets: Seq<Street>, id: u64, sums: Seq<Seq<int>>, ones: Seq<Seq<int>>) -> bool {
    &&& sums.len() == streets.len()
    &&& ones.len() == streets.len()
    &&& forall|s: int|
        0 <= s < streets.len() ==> (#[trigger] sums[s]).len() == streets[s].connectors@.len() && ones[s].len()
            == streets[s].connectors@.len()
    &&& forall|s: int, k: int|
        0 <= s < streets.len() && 0 <= k < streets[s].connectors@.len() ==> {
            let here = streets[s].surface is Some && streets[s].connectors@[k] == id;
            &&& #[trigger] sums[s][k] == if here {
                (streets[s].surface->0)@[k] as int
            } else {
                0
            }
            &&& ones[s][k] == if here {
                1int
            } else {
                0
            }
        }
}

/// The total of every row's total.
pub open spec fn total_of(rows: Seq<Seq<int>>) -> int
    decreases rows.len(),
{
    if rows.len() == 0 {
        0
    } else {
        total_of(rows.drop_last()) + total(rows.last())
    }
}

/// The street surface at a connector is the mean over every place a street with
/// a profile carries it, rounded down; there is none where no such street does.
pub proof fn a_connectors_surface_is_the_mean(streets: Seq<Street>, id: u64, sums: Seq<Seq<int>>, ones: Seq<Seq<int>>)
    requires
        surfaces_at(streets, id, sums, ones),
    ensures
        street_surface(streets, id) is Some <==> total_of(ones) > 0,
        street_surface(streets, id) matches Some(h) ==> h * total_of(ones) <= total_of(sums) < (h + 1) * total_of(ones),
{
    let n = streets.len() as int;
    lemma_surfaces(streets, id, sums, ones, n);
    assert(sums.take(n) =~= sums);
    assert(ones.take(n) =~= ones);
    if total_of(ones) > 0 {
        a_mean_is_rounded_down(total_of(sums), total_of(ones));
    }
}

proof fn lemma_surfaces(streets: Seq<Street>, id: u64, sums: Seq<Seq<int>>, ones: Seq<Seq<int>>, n: int)
    requires
        surfaces_at(streets, id, sums, ones),
        0 <= n <= streets.len(),
    ensures
        surfaces_sum(streets, id, n) == total_of(sums.take(n)),
        surfaces_count(streets, id, n) == total_of(ones.take(n)),
    decreases n,
{
    if n > 0 {
        lemma_surfaces(streets, id, sums, ones, n - 1);
        assert(sums.take(n).drop_last() =~= sums.take(n - 1));
        assert(ones.take(n).drop_last() =~= ones.take(n - 1));
        assert(sums.take(n).last() == sums[n - 1]);
        assert(ones.take(n).last() == ones[n - 1]);
        let m = streets[n - 1].connectors@.len() as int;
        lemma_row(streets, id, sums, ones, n - 1, m);
        assert(sums[n - 1].take(m) =~= sums[n - 1]);
        assert(ones[n - 1].take(m) =~= ones[n - 1]);
    }
}

proof fn lemma_row(streets: Seq<Street>, id: u64, sums: Seq<Seq<int>>, ones: Seq<Seq<int>>, s: int, n: int)
    requires
        surfaces_at(streets, id, sums, ones),
        0 <= s < streets.len(),
        0 <= n <= streets[s].connectors@.len(),
    ensures
        streets[s].surface is Some ==> surface_sum(
            streets[s].connectors@,
            (streets[s].surface->0)@,
            id,
            n,
        ) == total(sums[s].take(n)),
        streets[s].surface is Some ==> id_count(streets[s].connectors@, id, n) == total(ones[s].take(n)),
        streets[s].surface is None ==> total(sums[s].take(n)) == 0 && total(ones[s].take(n)) == 0,
    decreases n,
{
    assert(sums[s].len() == streets[s].connectors@.len());
    if n > 0 {
        lemma_row(streets, id, sums, ones, s, n - 1);
        assert(sums[s].take(n).drop_last() =~= sums[s].take(n - 1));
        assert(ones[s].take(n).drop_last() =~= ones[s].take(n - 1));
        assert(sums[s].take(n).last() == sums[s][n - 1]);
        assert(ones[s].take(n).last() == ones[s][n - 1]);
    }
}

} // verus!
