//! The joint graph does not depend on the order its bands come in.
//!
//! A network may be listed with its bands in another order, its evidence
//! renamed to match and listed in any order too. Joints, seats, pins and the
//! relaxation between them carry over, and every band is stamped the same.
use vstd::prelude::*;
use crate::synth::walkgraph::{
    a_stub_takes_the_nearest_hosted_band, bands_fit, coincidence_sets, edge_weight, edges_of,
    ends_share_a_node_iff_they_share_a_joint, first_corrections, hosted, is_edge, is_partition,
    is_stub, joined, joint_members, joint_sets, lemma_edge_weight, lemma_merged_fits, lemma_node_of,
    lemma_node_roots, live, live_band, mass, members_at, merged, merging_keeps_a_partition,
    net_fits, net_of, node_of, nodes, own_height, own_members, pin_of, pins, pull, relaxed, seat,
    seat_count, seat_sum, seed_fits, seed_joined, seed_of, seeds_joined, sets_fit, slot_count,
    solved_height, stamped, standing_fits, standing_members, stands, street_at, street_at_node,
    street_count, street_of, street_sum, stub_fits, stub_host, stub_members, Band, ConnectorSeed,
    Edge, Evidence, Member, Near, Net, Standing, StubEnd, SWEEPS, WalkGraph,
};

verus! {

/// Two listings of the same `n` things: thing `i` of the first is thing
/// `to[i]` of the second, and `back` leads back.
pub open spec fn is_order(to: Seq<int>, back: Seq<int>, n: int) -> bool {
    &&& to.len() == n
    &&& back.len() == n
    &&& forall|i: int| 0 <= i < n ==> 0 <= #[trigger] to[i] < n && back[to[i]] == i
    &&& forall|j: int| 0 <= j < n ==> 0 <= #[trigger] back[j] < n && to[back[j]] == j
}

/// The end of a band after its band is renamed.
pub open spec fn slot_to(to: Seq<int>, s: int) -> int {
    2 * to[s / 2] + s % 2
}

/// How the parts of a network are listed anew: the bands, and each list of
/// evidence, with the ways back.
pub struct Reordering {
    pub to: Seq<int>,
    pub back: Seq<int>,
    pub seeds: Seq<int>,
    pub seeds_back: Seq<int>,
    pub standing: Seq<int>,
    pub standing_back: Seq<int>,
    pub stubs: Seq<int>,
    pub stubs_back: Seq<int>,
}

/// The source of a band; one that is not listed has a source of its own.
pub open spec fn source_of(sources: Seq<u64>, i: int) -> u64 {
    if i < sources.len() {
        sources[i]
    } else {
        1
    }
}

/// Whether some pair ties two ends, whichever comes first.
pub open spec fn ties(pairs: Seq<(u32, u32)>, a: int, b: int) -> bool {
    exists|k: int| {
        &&& 0 <= k < pairs.len()
        &&& ((#[trigger] pairs[k]).0 == a && pairs[k].1 == b) || (pairs[k].0 == b && pairs[k].1 == a)
    }
}

/// Whether every end of `a`, renamed, is an end of `b`.
#[verifier::opaque]
pub open spec fn has_ends(to: Seq<int>, a: Seq<u32>, b: Seq<u32>) -> bool {
    forall|e: int|
        0 <= e < a.len() ==> exists|f: int| 0 <= f < b.len() && #[trigger] b[f] == slot_to(to, #[trigger] a[e] as int)
}

/// Whether every band of `a`, renamed, is seen as well by `b`.
#[verifier::opaque]
pub open spec fn has_near(to: Seq<int>, a: Seq<Near>, b: Seq<Near>) -> bool {
    forall|j: int| 0 <= j < a.len() ==> sees(to, #[trigger] a[j], b)
}

pub open spec fn sees(to: Seq<int>, c: Near, b: Seq<Near>) -> bool {
    exists|l: int| {
        &&& 0 <= l < b.len()
        &&& (#[trigger] b[l]).band == to[c.band as int]
        &&& b[l].distance == c.distance
        &&& b[l].height == c.height
    }
}

pub open spec fn same_seed(r: Reordering, a: ConnectorSeed, b: ConnectorSeed) -> bool {
    a.street == b.street && has_ends(r.to, a.ends@, b.ends@) && has_ends(r.back, b.ends@, a.ends@)
}

pub open spec fn same_standing(to: Seq<int>, a: Standing, b: Standing) -> bool {
    b.slot == slot_to(to, a.slot as int) && b.band == to[a.band as int] && b.height == a.height
}

pub open spec fn same_stub(r: Reordering, a: StubEnd, b: StubEnd) -> bool {
    &&& b.slot == slot_to(r.to, a.slot as int)
    &&& has_near(r.to, a.near@, b.near@)
    &&& has_near(r.back, b.near@, a.near@)
}

/// A network as it is listed: its bands, their sources, and the evidence.
pub struct Listing {
    pub bands: Seq<Band>,
    pub sources: Seq<u64>,
    pub evidence: Evidence,
}

impl Listing {
    pub open spec fn fits(self) -> bool {
        bands_fit(self.bands) && self.evidence.well_formed(self.bands)
    }

    pub open spec fn net(self, reach: int) -> Net {
        net_of(self.bands, self.sources, self.evidence, reach)
    }
}

/// Whether two listings are of the same network: the same bands in another
/// order, with the same evidence of them, each list in any order.
pub open spec fn same_network(r: Reordering, a: Listing, b: Listing) -> bool {
    let (e, f) = (a.evidence, b.evidence);
    &&& is_order(r.to, r.back, a.bands.len() as int)
    &&& b.bands.len() == a.bands.len()
    &&& forall|i: int| 0 <= i < a.bands.len() ==> b.bands[#[trigger] r.to[i]] == a.bands[i]
    &&& forall|i: int| 0 <= i < a.bands.len() ==> source_of(b.sources, #[trigger] r.to[i]) == source_of(a.sources, i)
    &&& same_ties(r.to, e.coincident@, f.coincident@)
    &&& same_ties(r.back, f.coincident@, e.coincident@)
    &&& is_order(r.seeds, r.seeds_back, e.seeds@.len() as int)
    &&& f.seeds@.len() == e.seeds@.len()
    &&& forall|k: int| 0 <= k < e.seeds@.len() ==> same_seed(r, e.seeds@[k], f.seeds@[#[trigger] r.seeds[k]])
    &&& is_order(r.standing, r.standing_back, e.standing@.len() as int)
    &&& f.standing@.len() == e.standing@.len()
    &&& forall|k: int|
        0 <= k < e.standing@.len() ==> same_standing(r.to, e.standing@[k], f.standing@[#[trigger] r.standing[k]])
    &&& is_order(r.stubs, r.stubs_back, e.stubs@.len() as int)
    &&& f.stubs@.len() == e.stubs@.len()
    &&& forall|k: int| 0 <= k < e.stubs@.len() ==> same_stub(r, e.stubs@[k], f.stubs@[#[trigger] r.stubs[k]])
}

/// Whether every stub end has one nearest pavement, or several at one height:
/// where two stand equally near, the order of the bands would decide.
pub open spec fn stubs_are_clear(net: Net) -> bool {
    forall|k: int| 0 <= k < net.stubs.len() ==> stub_is_clear(net, #[trigger] net.stubs[k])
}

pub open spec fn stub_is_clear(net: Net, s: StubEnd) -> bool {
    stub_host(net, s) matches Some(h) ==> forall|j: int|
        0 <= j < s.near@.len() && hosted(net.bands, (#[trigger] s.near@[j]).band as int) && s.near@[j].distance
            == h.distance ==> s.near@[j].height == h.height
}

/// Whether every tie of `a`, renamed, is one of `b`.
#[verifier::opaque]
pub open spec fn same_ties(to: Seq<int>, a: Seq<(u32, u32)>, b: Seq<(u32, u32)>) -> bool {
    forall|k: int|
        0 <= k < a.len() ==> ties(b, slot_to(to, (#[trigger] a[k]).0 as int), slot_to(to, a[k].1 as int))
}

// ---------------------------------------------------------------------------
// Sums in any order.
// ---------------------------------------------------------------------------

/// The sum of the first `n` values.
pub open spec fn total(f: Seq<int>, n: int) -> int
    decreases n,
{
    if n <= 0 {
        0
    } else {
        total(f, n - 1) + f[n - 1]
    }
}

proof fn lemma_total_differs(f: Seq<int>, g: Seq<int>, j: int, n: int)
    requires
        0 <= j < n <= f.len(),
        n <= g.len(),
        forall|k: int| 0 <= k < n && k != j ==> #[trigger] f[k] == g[k],
    ensures
        total(f, n) - f[j] == total(g, n) - g[j],
    decreases n,
{
    if j < n - 1 {
        lemma_total_differs(f, g, j, n - 1);
    } else {
        lemma_total_same(f, g, n - 1);
    }
}

proof fn lemma_total_same(f: Seq<int>, g: Seq<int>, n: int)
    requires
        n <= f.len(),
        n <= g.len(),
        forall|k: int| 0 <= k < n ==> #[trigger] f[k] == g[k],
    ensures
        total(f, n) == total(g, n),
    decreases n,
{
    if n > 0 {
        lemma_total_same(f, g, n - 1);
    }
}

/// A sum does not depend on the order of its values.
proof fn lemma_total_reordered(f: Seq<int>, g: Seq<int>, to: Seq<int>, back: Seq<int>, n: int)
    requires
        0 <= n,
        f.len() == n,
        g.len() == n,
        is_order(to, back, n),
        forall|i: int| 0 <= i < n ==> g[#[trigger] to[i]] == f[i],
    ensures
        total(f, n) == total(g, n),
    decreases n,
{
    if n > 0 {
        let m = n - 1;
        let j = to[m];
        // Put the last value of the second listing where the last of the first went.
        let f1 = f.take(m);
        let g1 = Seq::new(
            m as nat,
            |x: int|
                if x == j {
                    g[m]
                } else {
                    g[x]
                },
        );
        let to1 = Seq::new(
            m as nat,
            |i: int|
                if to[i] == m {
                    j
                } else {
                    to[i]
                },
        );
        let back1 = Seq::new(
            m as nat,
            |x: int|
                if x == j {
                    back[m]
                } else {
                    back[x]
                },
        );
        assert(back[j] == m);
        assert forall|i: int| 0 <= i < m implies 0 <= #[trigger] to1[i] < m && back1[to1[i]] == i && g1[to1[i]]
            == f1[i] by {
            assert(back[to[i]] == i);
            assert(to[i] != j);
            assert(g[to[i]] == f[i]);
        }
        assert forall|x: int| 0 <= x < m implies 0 <= #[trigger] back1[x] < m && to1[back1[x]] == x by {
            assert(to[back[x]] == x);
            assert(to[back[m]] == m);
            if x == j {
                assert(back[m] != m);
            } else {
                assert(back[x] != m);
            }
        }
        lemma_total_reordered(f1, g1, to1, back1, m);
        lemma_total_same(f, f1, m);
        if j < m {
            lemma_total_differs(g, g1, j, m);
        } else {
            lemma_total_same(g, g1, m);
        }
        assert(g[to[m]] == f[m]);
    }
}

// ---------------------------------------------------------------------------
// Joints.
// ---------------------------------------------------------------------------

/// Whether a label is the same throughout every set.
spec fn label_fits(roots: Seq<int>, label: Seq<int>) -> bool {
    &&& label.len() == roots.len()
    &&& forall|s: int| 0 <= s < roots.len() ==> label[#[trigger] roots[s]] == label[s]
}

/// Whether one partition joins all that another does.
spec fn keeps(before: Seq<int>, after: Seq<int>) -> bool {
    &&& after.len() == before.len()
    &&& forall|s: int, t: int|
        0 <= s < before.len() && 0 <= t < before.len() && #[trigger] before[s] == #[trigger] before[t] ==> after[s]
            == after[t]
}

spec fn pairs_in(pairs: Seq<(u32, u32)>, n: int, len: int) -> bool {
    forall|k: int| 0 <= k < n ==> (#[trigger] pairs[k]).0 < len && pairs[k].1 < len
}

spec fn ends_in(ends: Seq<u32>, len: int) -> bool {
    forall|e: int| 0 <= e < ends.len() ==> #[trigger] ends[e] < len
}

proof fn lemma_joined(roots: Seq<int>, pairs: Seq<(u32, u32)>, n: int, label: Seq<int>)
    requires
        is_partition(roots),
        0 <= n <= pairs.len(),
        pairs_in(pairs, n, roots.len() as int),
    ensures
        is_partition(joined(roots, pairs, n)),
        keeps(roots, joined(roots, pairs, n)),
        forall|k: int|
            0 <= k < n ==> joined(roots, pairs, n)[(#[trigger] pairs[k]).0 as int] == joined(roots, pairs, n)[pairs[k].1 as int],
        label_fits(roots, label) && (forall|k: int|
            0 <= k < n ==> label[(#[trigger] pairs[k]).0 as int] == label[pairs[k].1 as int]) ==> label_fits(
            joined(roots, pairs, n),
            label,
        ),
    decreases n,
{
    if n > 0 {
        lemma_joined(roots, pairs, n - 1, label);
        let before = joined(roots, pairs, n - 1);
        let (a, b) = (pairs[n - 1].0 as int, pairs[n - 1].1 as int);
        merging_keeps_a_partition(before, a, b);
        lemma_merged(before, a, b, label);
    }
}

proof fn lemma_merged(roots: Seq<int>, a: int, b: int, label: Seq<int>)
    requires
        is_partition(roots),
        0 <= a < roots.len(),
        0 <= b < roots.len(),
    ensures
        keeps(roots, merged(roots, a, b)),
        label_fits(roots, label) && label[a] == label[b] ==> label_fits(merged(roots, a, b), label),
{
    if label_fits(roots, label) && label[a] == label[b] {
        assert(label[roots[a]] == label[a] && label[roots[b]] == label[b]);
        assert forall|s: int| 0 <= s < roots.len() implies label[#[trigger] merged(roots, a, b)[s]] == label[s] by {
            assert(label[roots[s]] == label[s]);
        }
    }
}

proof fn lemma_seed_joined(roots: Seq<int>, ends: Seq<u32>, n: int, label: Seq<int>)
    requires
        is_partition(roots),
        0 <= n <= ends.len(),
        ends_in(ends, roots.len() as int),
    ensures
        is_partition(seed_joined(roots, ends, n)),
        keeps(roots, seed_joined(roots, ends, n)),
        forall|e: int|
            0 <= e < n ==> seed_joined(roots, ends, n)[#[trigger] ends[e] as int] == seed_joined(roots, ends, n)[ends[0] as int],
        label_fits(roots, label) && (forall|e: int|
            0 <= e < n ==> label[#[trigger] ends[e] as int] == label[ends[0] as int]) ==> label_fits(
            seed_joined(roots, ends, n),
            label,
        ),
    decreases n,
{
    if n > 1 {
        lemma_seed_joined(roots, ends, n - 1, label);
        let before = seed_joined(roots, ends, n - 1);
        let (a, b) = (ends[0] as int, ends[n - 1] as int);
        merging_keeps_a_partition(before, a, b);
        lemma_merged(before, a, b, label);
        assert forall|e: int| 0 <= e < n implies merged(before, a, b)[#[trigger] ends[e] as int] == merged(
            before,
            a,
            b,
        )[ends[0] as int] by {
            if e < n - 1 {
                assert(before[ends[e] as int] == before[ends[0] as int]);
            }
        }
    }
}

proof fn lemma_seeds_joined(roots: Seq<int>, seeds: Seq<ConnectorSeed>, n: int, label: Seq<int>)
    requires
        is_partition(roots),
        0 <= n <= seeds.len(),
        forall|k: int| 0 <= k < n ==> ends_in((#[trigger] seeds[k]).ends@, roots.len() as int),
    ensures
        is_partition(seeds_joined(roots, seeds, n)),
        keeps(roots, seeds_joined(roots, seeds, n)),
        forall|k: int, e: int|
            0 <= k < n && 0 <= e < seeds[k].ends@.len() ==> seeds_joined(roots, seeds, n)[#[trigger] seeds[k].ends@[e] as int]
                == seeds_joined(roots, seeds, n)[seeds[k].ends@[0] as int],
        label_fits(roots, label) && (forall|k: int, e: int|
            0 <= k < n && 0 <= e < seeds[k].ends@.len() ==> label[#[trigger] seeds[k].ends@[e] as int]
                == label[seeds[k].ends@[0] as int]) ==> label_fits(seeds_joined(roots, seeds, n), label),
    decreases n,
{
    if n > 0 {
        lemma_seeds_joined(roots, seeds, n - 1, label);
        let before = seeds_joined(roots, seeds, n - 1);
        let ends = seeds[n - 1].ends@;
        assert(ends_in(ends, roots.len() as int));
        lemma_seed_joined(before, ends, ends.len() as int, label);
        let after = seed_joined(before, ends, ends.len() as int);
        assert forall|k: int, e: int| 0 <= k < n && 0 <= e < seeds[k].ends@.len() implies after[#[trigger] seeds[k].ends@[e] as int]
            == after[seeds[k].ends@[0] as int] by {
            assert(ends_in(seeds[k].ends@, roots.len() as int));
            assert(seeds[k].ends@[0] < roots.len());
            if k < n - 1 {
                assert(before[seeds[k].ends@[e] as int] == before[seeds[k].ends@[0] as int]);
            }
        }
    }
}

/// The joints tie what the evidence ties, and nothing that a label the evidence
/// respects tells apart.
proof fn lemma_joints(bands: Seq<Band>, ev: Evidence, label: Seq<int>)
    requires
        ev.well_formed(bands),
    ensures
        is_partition(joint_sets(bands, ev)),
        joint_sets(bands, ev).len() == slot_count(bands),
        forall|k: int|
            0 <= k < ev.coincident@.len() ==> joint_sets(bands, ev)[(#[trigger] ev.coincident@[k]).0 as int]
                == joint_sets(bands, ev)[ev.coincident@[k].1 as int],
        forall|k: int, e: int|
            0 <= k < ev.seeds@.len() && 0 <= e < ev.seeds@[k].ends@.len() ==> joint_sets(bands, ev)[#[trigger] ev.seeds@[k].ends@[e] as int]
                == joint_sets(bands, ev)[ev.seeds@[k].ends@[0] as int],
        label.len() == slot_count(bands) && (forall|k: int|
            0 <= k < ev.coincident@.len() ==> label[(#[trigger] ev.coincident@[k]).0 as int]
                == label[ev.coincident@[k].1 as int]) && (forall|k: int, e: int|
            0 <= k < ev.seeds@.len() && 0 <= e < ev.seeds@[k].ends@.len() ==> label[#[trigger] ev.seeds@[k].ends@[e] as int]
                == label[ev.seeds@[k].ends@[0] as int]) ==> label_fits(joint_sets(bands, ev), label),
{
    let singles = Seq::new(slot_count(bands) as nat, |i: int| i);
    let (pairs, seeds) = (ev.coincident@, ev.seeds@);
    let met = coincidence_sets(bands, ev);
    assert forall|k: int| 0 <= k < pairs.len() implies (#[trigger] pairs[k]).0 < singles.len() && pairs[k].1
        < singles.len() by {
        assert(live(bands, pairs[k].0 as int) && live(bands, pairs[k].1 as int));
    }
    lemma_joined(singles, pairs, pairs.len() as int, label);
    assert forall|k: int| 0 <= k < seeds.len() implies ends_in((#[trigger] seeds[k]).ends@, met.len() as int) by {
        assert(seed_fits(bands, seeds[k]));
        assert forall|e: int| 0 <= e < seeds[k].ends@.len() implies #[trigger] seeds[k].ends@[e] < met.len() by {
            assert(live(bands, seeds[k].ends@[e] as int));
        }
    }
    lemma_seeds_joined(met, seeds, seeds.len() as int, label);
    let sets = joint_sets(bands, ev);
    assert forall|k: int| 0 <= k < pairs.len() implies sets[(#[trigger] pairs[k]).0 as int] == sets[pairs[k].1 as int] by {
        assert(met[pairs[k].0 as int] == met[pairs[k].1 as int]);
    }
}

/// Whether some connector has every end of another, renamed.
spec fn is_among(to: Seq<int>, a: ConnectorSeed, seeds: Seq<ConnectorSeed>) -> bool {
    exists|m: int| 0 <= m < seeds.len() && has_ends(to, a.ends@, (#[trigger] seeds[m]).ends@)
}

proof fn lemma_slot(to: Seq<int>, back: Seq<int>, n: int, s: int)
    requires
        is_order(to, back, n),
        0 <= s < 2 * n,
    ensures
        0 <= slot_to(to, s) < 2 * n,
        slot_to(to, s) / 2 == to[s / 2],
        slot_to(to, s) % 2 == s % 2,
        slot_to(back, slot_to(to, s)) == s,
{
    assert(0 <= to[s / 2] < n && back[to[s / 2]] == s / 2);
}

/// Ends in one joint are in one joint of the other listing.
proof fn lemma_carried(
    to: Seq<int>,
    back: Seq<int>,
    bands: Seq<Band>,
    ev: Evidence,
    bands2: Seq<Band>,
    ev2: Evidence,
    s: int,
    t: int,
)
    requires
        0 <= s < slot_count(bands),
        0 <= t < slot_count(bands),
        is_order(to, back, bands.len() as int),
        bands2.len() == bands.len(),
        ev.well_formed(bands),
        ev2.well_formed(bands2),
        same_ties(to, ev.coincident@, ev2.coincident@),
        forall|k: int| 0 <= k < ev.seeds@.len() ==> is_among(to, #[trigger] ev.seeds@[k], ev2.seeds@),
    ensures
        joint_sets(bands, ev)[s] == joint_sets(bands, ev)[t] ==> joint_sets(bands2, ev2)[slot_to(to, s)]
            == joint_sets(bands2, ev2)[slot_to(to, t)],
{
    reveal(has_ends);
    reveal(same_ties);
    let (sets, sets2) = (joint_sets(bands, ev), joint_sets(bands2, ev2));
    let label = Seq::new(slot_count(bands) as nat, |s: int| sets2[slot_to(to, s)]);
    lemma_joints(bands2, ev2, Seq::empty());
    let (pairs, pairs2, seeds, seeds2) = (ev.coincident@, ev2.coincident@, ev.seeds@, ev2.seeds@);
    assert forall|k: int| 0 <= k < pairs.len() implies label[(#[trigger] pairs[k]).0 as int] == label[pairs[k].1 as int] by {
        let (a, b) = (slot_to(to, pairs[k].0 as int), slot_to(to, pairs[k].1 as int));
        assert(live(bands, pairs[k].0 as int) && live(bands, pairs[k].1 as int));
        assert(ties(pairs2, a, b));
        let m = choose|m: int| {
            &&& 0 <= m < pairs2.len()
            &&& ((#[trigger] pairs2[m]).0 == a && pairs2[m].1 == b) || (pairs2[m].0 == b && pairs2[m].1 == a)
        };
        assert(sets2[pairs2[m].0 as int] == sets2[pairs2[m].1 as int]);
    }
    assert forall|k: int, e: int| 0 <= k < seeds.len() && 0 <= e < seeds[k].ends@.len() implies label[#[trigger] seeds[k].ends@[e] as int]
        == label[seeds[k].ends@[0] as int] by {
        let ends = seeds[k].ends@;
        assert(is_among(to, seeds[k], seeds2));
        let m = choose|m: int|
            0 <= m < seeds2.len() && has_ends(to, seeds[k].ends@, (#[trigger] seeds2[m]).ends@);
        let ends2 = seeds2[m].ends@;
        assert(has_ends(to, ends, ends2));
        assert(seed_fits(bands, seeds[k]));
        assert(live(bands, ends[e] as int) && live(bands, ends[0] as int));
        let f = choose|f: int| 0 <= f < ends2.len() && #[trigger] ends2[f] == slot_to(to, ends[e] as int);
        let g = choose|g: int| 0 <= g < ends2.len() && #[trigger] ends2[g] == slot_to(to, ends[0] as int);
        assert(sets2[seeds2[m].ends@[f] as int] == sets2[seeds2[m].ends@[0] as int]);
        assert(sets2[seeds2[m].ends@[g] as int] == sets2[seeds2[m].ends@[0] as int]);
    }
    lemma_joints(bands, ev, label);
    assert(label[sets[s]] == label[s]);
    assert(label[sets[t]] == label[t]);
}

/// The joints of two listings are the same joints.
proof fn lemma_same_joint(r: Reordering, a: Listing, b: Listing, s: int, t: int)
    requires
        same_network(r, a, b),
        a.fits(),
        b.fits(),
        0 <= s < slot_count(a.bands),
        0 <= t < slot_count(a.bands),
    ensures
        joint_sets(a.bands, a.evidence)[s] == joint_sets(a.bands, a.evidence)[t] <==> joint_sets(
            b.bands,
            b.evidence,
        )[slot_to(r.to, s)] == joint_sets(b.bands, b.evidence)[slot_to(r.to, t)],
{
    let n = a.bands.len() as int;
    let (e, f) = (a.evidence, b.evidence);
    assert forall|k: int| 0 <= k < e.seeds@.len() implies is_among(r.to, #[trigger] e.seeds@[k], f.seeds@) by {
        assert(same_seed(r, e.seeds@[k], f.seeds@[r.seeds[k]]));
    }
    lemma_carried(r.to, r.back, a.bands, e, b.bands, f, s, t);
    assert forall|k: int| 0 <= k < f.seeds@.len() implies is_among(r.back, #[trigger] f.seeds@[k], e.seeds@) by {
        let m = r.seeds_back[k];
        assert(r.seeds[m] == k);
        assert(same_seed(r, e.seeds@[m], f.seeds@[r.seeds[m]]));
    }
    lemma_slot(r.to, r.back, n, s);
    lemma_slot(r.to, r.back, n, t);
    lemma_carried(r.back, r.to, b.bands, f, a.bands, e, slot_to(r.to, s), slot_to(r.to, t));
}

// ---------------------------------------------------------------------------
// Seats.
// ---------------------------------------------------------------------------

/// The sum of a value over the first `n` members.
spec fn tallied(m: Seq<Member>, v: spec_fn(int, bool) -> int, n: int) -> int
    decreases n,
{
    if n <= 0 {
        0
    } else {
        tallied(m, v, n - 1) + v(m[n - 1].height as int, m[n - 1].hosted)
    }
}

spec fn seat_value(hosted: bool) -> spec_fn(int, bool) -> int {
    |z: int, h: bool|
        if h == hosted {
            z
        } else {
            0
        }
}

spec fn one_value(hosted: bool) -> spec_fn(int, bool) -> int {
    |z: int, h: bool|
        if h == hosted {
            1int
        } else {
            0
        }
}

proof fn lemma_seats_are_tallies(m: Seq<Member>, hosted: bool, n: int)
    ensures
        seat_sum(m, hosted, n) == tallied(m, seat_value(hosted), n),
        seat_count(m, hosted, n) == tallied(m, one_value(hosted), n),
    decreases n,
{
    if n > 0 {
        lemma_seats_are_tallies(m, hosted, n - 1);
    }
}

proof fn lemma_tally_of_both(a: Seq<Member>, b: Seq<Member>, v: spec_fn(int, bool) -> int, n: int)
    requires
        0 <= n <= b.len(),
    ensures
        tallied(a + b, v, a.len() + n) == tallied(a, v, a.len() as int) + tallied(b, v, n),
    decreases n,
{
    if n > 0 {
        lemma_tally_of_both(a, b, v, n - 1);
        assert((a + b)[a.len() + n - 1] == b[n - 1]);
    } else {
        lemma_tally_prefix(a + b, a, v, a.len() as int);
    }
}

proof fn lemma_tally_prefix(a: Seq<Member>, b: Seq<Member>, v: spec_fn(int, bool) -> int, n: int)
    requires
        n <= a.len(),
        n <= b.len(),
        forall|k: int| 0 <= k < n ==> #[trigger] a[k] == b[k],
    ensures
        tallied(a, v, n) == tallied(b, v, n),
    decreases n,
{
    if n > 0 {
        lemma_tally_prefix(a, b, v, n - 1);
    }
}

/// What each end on the graph brings to joint `r`.
spec fn own_values(net: Net, r: int, v: spec_fn(int, bool) -> int) -> Seq<int> {
    Seq::new(
        slot_count(net.bands) as nat,
        |s: int|
            if live(net.bands, s) && net.sets[s] == r {
                v(seat(net.bands, s) as int, hosted(net.bands, s / 2))
            } else {
                0
            },
    )
}

spec fn standing_values(net: Net, r: int, v: spec_fn(int, bool) -> int) -> Seq<int> {
    Seq::new(
        net.standing.len(),
        |k: int|
            {
                let s = net.standing[k];
                if stands(net.bands, s) && net.sets[s.slot as int] == r {
                    v(s.height as int, hosted(net.bands, s.band as int))
                } else {
                    0
                }
            },
    )
}

spec fn stub_values(net: Net, r: int, v: spec_fn(int, bool) -> int) -> Seq<int> {
    Seq::new(
        net.stubs.len(),
        |k: int|
            match stub_host(net, net.stubs[k]) {
                Some(h) => if net.sets[net.stubs[k].slot as int] == r {
                    v(h.height as int, true)
                } else {
                    0
                },
                None => 0,
            },
    )
}

proof fn lemma_own_total(net: Net, r: int, v: spec_fn(int, bool) -> int, n: int)
    requires
        0 <= n <= slot_count(net.bands),
    ensures
        tallied(own_members(net, r, n), v, own_members(net, r, n).len() as int) == total(own_values(net, r, v), n),
    decreases n,
{
    if n > 0 {
        lemma_own_total(net, r, v, n - 1);
        let (rest, now) = (own_members(net, r, n - 1), own_members(net, r, n));
        lemma_tally_prefix(rest, now, v, rest.len() as int);
    }
}

proof fn lemma_standing_total(net: Net, r: int, v: spec_fn(int, bool) -> int, n: int)
    requires
        0 <= n <= net.standing.len(),
    ensures
        tallied(standing_members(net, r, n), v, standing_members(net, r, n).len() as int) == total(
            standing_values(net, r, v),
            n,
        ),
    decreases n,
{
    if n > 0 {
        lemma_standing_total(net, r, v, n - 1);
        let (rest, now) = (standing_members(net, r, n - 1), standing_members(net, r, n));
        lemma_tally_prefix(rest, now, v, rest.len() as int);
    }
}

proof fn lemma_stub_total(net: Net, r: int, v: spec_fn(int, bool) -> int, n: int)
    requires
        0 <= n <= net.stubs.len(),
    ensures
        tallied(stub_members(net, r, n), v, stub_members(net, r, n).len() as int) == total(stub_values(net, r, v), n),
    decreases n,
{
    if n > 0 {
        lemma_stub_total(net, r, v, n - 1);
        let (rest, now) = (stub_members(net, r, n - 1), stub_members(net, r, n));
        lemma_tally_prefix(rest, now, v, rest.len() as int);
    }
}

proof fn lemma_joint_total(net: Net, r: int, v: spec_fn(int, bool) -> int)
    ensures
        tallied(joint_members(net, r), v, joint_members(net, r).len() as int) == total(
            own_values(net, r, v),
            slot_count(net.bands),
        ) + total(standing_values(net, r, v), net.standing.len() as int) + total(
            stub_values(net, r, v),
            net.stubs.len() as int,
        ),
{
    let own = own_members(net, r, slot_count(net.bands));
    let standing = standing_members(net, r, net.standing.len() as int);
    let stubs = stub_members(net, r, net.stubs.len() as int);
    lemma_own_total(net, r, v, slot_count(net.bands));
    lemma_standing_total(net, r, v, net.standing.len() as int);
    lemma_stub_total(net, r, v, net.stubs.len() as int);
    lemma_tally_of_both(own, standing, v, standing.len() as int);
    lemma_tally_of_both(own + standing, stubs, v, stubs.len() as int);
}

/// A stub end takes the same seat in both listings.
proof fn lemma_same_host(r: Reordering, a: Listing, b: Listing, reach: int, k: int)
    requires
        same_network(r, a, b),
        a.fits(),
        b.fits(),
        stubs_are_clear(a.net(reach)),
        0 <= k < a.evidence.stubs@.len(),
    ensures
        ({
            let (x, y) = (
                stub_host(a.net(reach), a.evidence.stubs@[k]),
                stub_host(b.net(reach), b.evidence.stubs@[r.stubs[k]]),
            );
            &&& x is Some <==> y is Some
            &&& x is Some ==> x->0.height == y->0.height
        }),
{
    reveal(has_near);
    let (m, n) = (a.net(reach), b.net(reach));
    let (s, t) = (a.evidence.stubs@[k], b.evidence.stubs@[r.stubs[k]]);
    assert(same_stub(r, s, t));
    assert(stub_fits(a.bands, s) && stub_fits(b.bands, t));
    lemma_slot(r.to, r.back, a.bands.len() as int, s.slot as int);
    let i = s.slot as int / 2;
    assert(b.bands[r.to[i]] == a.bands[i]);
    assert(source_of(b.sources, r.to[i]) == source_of(a.sources, i));
    assert(is_stub(m, s.slot as int) == is_stub(n, t.slot as int));
    if is_stub(m, s.slot as int) {
        a_stub_takes_the_nearest_hosted_band(m, s);
        a_stub_takes_the_nearest_hosted_band(n, t);
        assert(stub_is_clear(m, m.stubs[k]));
        if stub_host(m, s) is Some {
            let h = stub_host(m, s)->0;
            let j = choose|j: int| 0 <= j < s.near@.len() && s.near@[j] == h;
            assert(sees(r.to, s.near@[j], t.near@));
            let l = choose|l: int| {
                &&& 0 <= l < t.near@.len()
                &&& (#[trigger] t.near@[l]).band == r.to[h.band as int]
                &&& t.near@[l].distance == h.distance
                &&& t.near@[l].height == h.height
            };
            assert(live_band(a.bands, s.near@[j].band as int));
            assert(b.bands[r.to[h.band as int]] == a.bands[h.band as int]);
            assert(hosted(b.bands, t.near@[l].band as int));
        }
        if stub_host(n, t) is Some {
            let h = stub_host(n, t)->0;
            let j = choose|j: int| 0 <= j < t.near@.len() && t.near@[j] == h;
            assert(sees(r.back, t.near@[j], s.near@));
            let l = choose|l: int| {
                &&& 0 <= l < s.near@.len()
                &&& (#[trigger] s.near@[l]).band == r.back[h.band as int]
                &&& s.near@[l].distance == h.distance
                &&& s.near@[l].height == h.height
            };
            assert(live_band(b.bands, t.near@[j].band as int));
            let back = r.back[h.band as int];
            assert(r.to[back] == h.band);
            assert(b.bands[r.to[back]] == a.bands[back]);
            assert(hosted(a.bands, s.near@[l].band as int));
        }
    }
}

proof fn lemma_slots_order(to: Seq<int>, back: Seq<int>, n: int)
    requires
        is_order(to, back, n),
    ensures
        is_order(
            Seq::new((2 * n) as nat, |s: int| slot_to(to, s)),
            Seq::new((2 * n) as nat, |s: int| slot_to(back, s)),
            2 * n,
        ),
{
    let slots = Seq::new((2 * n) as nat, |s: int| slot_to(to, s));
    let slots_back = Seq::new((2 * n) as nat, |s: int| slot_to(back, s));
    assert forall|s: int| 0 <= s < 2 * n implies 0 <= #[trigger] slots[s] < 2 * n && slots_back[slots[s]] == s by {
        lemma_slot(to, back, n, s);
    }
    assert forall|s: int| 0 <= s < 2 * n implies 0 <= #[trigger] slots_back[s] < 2 * n && slots[slots_back[s]] == s by {
        lemma_slot(back, to, n, s);
    }
}

/// One joint's members tally the same in both listings.
proof fn lemma_same_tally(r: Reordering, a: Listing, b: Listing, reach: int, at: int, v: spec_fn(int, bool) -> int)
    requires
        same_network(r, a, b),
        a.fits(),
        b.fits(),
        stubs_are_clear(a.net(reach)),
        0 <= at < slot_count(a.bands),
    ensures
        ({
            let (m, n) = (a.net(reach), b.net(reach));
            let (x, y) = (joint_members(m, m.sets[at]), joint_members(n, n.sets[slot_to(r.to, at)]));
            tallied(x, v, x.len() as int) == tallied(y, v, y.len() as int)
        }),
{
    let count = a.bands.len() as int;
    let (m, n) = (a.net(reach), b.net(reach));
    let (p, q) = (m.sets[at], n.sets[slot_to(r.to, at)]);
    lemma_joint_total(m, p, v);
    lemma_joint_total(n, q, v);
    lemma_slots_order(r.to, r.back, count);
    let slots = Seq::new((2 * count) as nat, |s: int| slot_to(r.to, s));
    let slots_back = Seq::new((2 * count) as nat, |s: int| slot_to(r.back, s));
    assert forall|s: int| 0 <= s < 2 * count implies own_values(n, q, v)[#[trigger] slots[s]] == own_values(m, p, v)[s] by {
        lemma_slot(r.to, r.back, count, s);
        lemma_same_joint(r, a, b, s, at);
        assert(b.bands[r.to[s / 2]] == a.bands[s / 2]);
    }
    lemma_total_reordered(own_values(m, p, v), own_values(n, q, v), slots, slots_back, 2 * count);
    assert forall|k: int| 0 <= k < m.standing.len() implies standing_values(n, q, v)[#[trigger] r.standing[k]]
        == standing_values(m, p, v)[k] by {
        let (s, t) = (m.standing[k], n.standing[r.standing[k]]);
        assert(same_standing(r.to, s, t));
        assert(standing_fits(a.bands, s));
        lemma_slot(r.to, r.back, count, s.slot as int);
        lemma_same_joint(r, a, b, s.slot as int, at);
        assert(b.bands[r.to[s.slot as int / 2]] == a.bands[s.slot as int / 2]);
        assert(b.bands[r.to[s.band as int]] == a.bands[s.band as int]);
        assert(r.back[r.to[s.band as int]] == s.band && r.back[r.to[s.slot as int / 2]] == s.slot as int / 2);
    }
    lemma_total_reordered(
        standing_values(m, p, v),
        standing_values(n, q, v),
        r.standing,
        r.standing_back,
        m.standing.len() as int,
    );
    assert forall|k: int| 0 <= k < m.stubs.len() implies stub_values(n, q, v)[#[trigger] r.stubs[k]] == stub_values(
        m,
        p,
        v,
    )[k] by {
        let (s, t) = (m.stubs[k], n.stubs[r.stubs[k]]);
        assert(same_stub(r, s, t));
        assert(stub_fits(a.bands, s));
        lemma_same_host(r, a, b, reach, k);
        lemma_same_joint(r, a, b, s.slot as int, at);
    }
    lemma_total_reordered(stub_values(m, p, v), stub_values(n, q, v), r.stubs, r.stubs_back, m.stubs.len() as int);
}

/// What each connector brings to joint `r`.
spec fn street_values(net: Net, r: int) -> Seq<int> {
    Seq::new(
        net.seeds.len(),
        |k: int|
            if street_at(net, net.seeds[k], r) {
                net.seeds[k].street->0 as int
            } else {
                0
            },
    )
}

spec fn street_ones(net: Net, r: int) -> Seq<int> {
    Seq::new(
        net.seeds.len(),
        |k: int|
            if street_at(net, net.seeds[k], r) {
                1int
            } else {
                0
            },
    )
}

proof fn lemma_street_totals(net: Net, r: int, n: int)
    requires
        0 <= n <= net.seeds.len(),
    ensures
        street_sum(net, r, n) == total(street_values(net, r), n),
        street_count(net, r, n) == total(street_ones(net, r), n),
    decreases n,
{
    if n > 0 {
        lemma_street_totals(net, r, n - 1);
    }
}

/// One joint is offered the same street in both listings.
proof fn lemma_same_street(r: Reordering, a: Listing, b: Listing, reach: int, at: int)
    requires
        same_network(r, a, b),
        a.fits(),
        b.fits(),
        0 <= at < slot_count(a.bands),
    ensures
        street_of(a.net(reach), a.net(reach).sets[at]) == street_of(
            b.net(reach),
            b.net(reach).sets[slot_to(r.to, at)],
        ),
{
    let (m, n) = (a.net(reach), b.net(reach));
    let (p, q) = (m.sets[at], n.sets[slot_to(r.to, at)]);
    let count = m.seeds.len() as int;
    lemma_joints(a.bands, a.evidence, Seq::empty());
    assert forall|k: int| 0 <= k < count implies street_at(n, n.seeds[#[trigger] r.seeds[k]], q) == street_at(
        m,
        m.seeds[k],
        p,
    ) by {
        let (x, y) = (m.seeds[k], n.seeds[r.seeds[k]]);
        assert(same_seed(r, x, y));
        assert(seed_fits(a.bands, x) && seed_fits(b.bands, y));
        assert(x.ends@.len() > 0 <==> y.ends@.len() > 0) by {
            if x.ends@.len() > 0 {
                let f = lemma_an_end_of(r.to, x.ends@, y.ends@, 0);
            }
            if y.ends@.len() > 0 {
                let f = lemma_an_end_of(r.back, y.ends@, x.ends@, 0);
            }
        }
        if y.ends@.len() > 0 {
            let e = lemma_an_end_of(r.back, y.ends@, x.ends@, 0);
            assert(live(b.bands, y.ends@[0] as int));
            assert(live(a.bands, x.ends@[e] as int));
            lemma_slot(r.back, r.to, a.bands.len() as int, y.ends@[0] as int);
            assert(m.sets[a.evidence.seeds@[k].ends@[e] as int] == m.sets[a.evidence.seeds@[k].ends@[0] as int]);
            lemma_same_joint(r, a, b, x.ends@[e] as int, at);
        }
    }
    lemma_street_totals(m, p, count);
    lemma_street_totals(n, q, count);
    assert forall|k: int| 0 <= k < count implies street_values(n, q)[#[trigger] r.seeds[k]] == street_values(m, p)[k]
        && street_ones(n, q)[r.seeds[k]] == street_ones(m, p)[k] by {
        assert(same_seed(r, m.seeds[k], n.seeds[r.seeds[k]]));
        assert(street_at(n, n.seeds[r.seeds[k]], q) == street_at(m, m.seeds[k], p));
    }
    lemma_total_reordered(street_values(m, p), street_values(n, q), r.seeds, r.seeds_back, count);
    lemma_total_reordered(street_ones(m, p), street_ones(n, q), r.seeds, r.seeds_back, count);
}

/// The end of `b` that an end of `a` is renamed to.
proof fn lemma_an_end_of(to: Seq<int>, a: Seq<u32>, b: Seq<u32>, e: int) -> (f: int)
    requires
        has_ends(to, a, b),
        0 <= e < a.len(),
    ensures
        0 <= f < b.len(),
        b[f] == slot_to(to, a[e] as int),
{
    reveal(has_ends);
    choose|f: int| 0 <= f < b.len() && #[trigger] b[f] == slot_to(to, a[e] as int)
}

/// One joint has the same seed, pin and own height in both listings.
proof fn lemma_same_resolution(r: Reordering, a: Listing, b: Listing, reach: int, at: int)
    requires
        same_network(r, a, b),
        a.fits(),
        b.fits(),
        stubs_are_clear(a.net(reach)),
        0 <= at < slot_count(a.bands),
    ensures
        ({
            let (m, n) = (a.net(reach), b.net(reach));
            let (p, q) = (m.sets[at], n.sets[slot_to(r.to, at)]);
            let (x, y) = (joint_members(m, p), joint_members(n, q));
            &&& seed_of(x) == seed_of(y)
            &&& pin_of(x, street_of(m, p)) == pin_of(y, street_of(n, q))
            &&& own_height(x, street_of(m, p)) == own_height(y, street_of(n, q))
        }),
{
    let (m, n) = (a.net(reach), b.net(reach));
    let (p, q) = (m.sets[at], n.sets[slot_to(r.to, at)]);
    let (x, y) = (joint_members(m, p), joint_members(n, q));
    lemma_same_street(r, a, b, reach, at);
    lemma_same_tally(r, a, b, reach, at, seat_value(true));
    lemma_same_tally(r, a, b, reach, at, seat_value(false));
    lemma_same_tally(r, a, b, reach, at, one_value(true));
    lemma_same_tally(r, a, b, reach, at, one_value(false));
    lemma_seats_are_tallies(x, true, x.len() as int);
    lemma_seats_are_tallies(x, false, x.len() as int);
    lemma_seats_are_tallies(y, true, y.len() as int);
    lemma_seats_are_tallies(y, false, y.len() as int);
}

// ---------------------------------------------------------------------------
// Heights.
// ---------------------------------------------------------------------------

proof fn lemma_joined_fits(bands: Seq<Band>, roots: Seq<int>, pairs: Seq<(u32, u32)>, n: int)
    requires
        sets_fit(bands, roots),
        0 <= n <= pairs.len(),
        forall|k: int| 0 <= k < n ==> live(bands, (#[trigger] pairs[k]).0 as int) && live(bands, pairs[k].1 as int),
    ensures
        sets_fit(bands, joined(roots, pairs, n)),
    decreases n,
{
    if n > 0 {
        lemma_joined_fits(bands, roots, pairs, n - 1);
        lemma_merged_fits(
            bands,
            joined(roots, pairs, n - 1),
            pairs[n - 1].0 as int,
            pairs[n - 1].1 as int,
        );
    }
}

proof fn lemma_seed_joined_fits(bands: Seq<Band>, roots: Seq<int>, ends: Seq<u32>, n: int)
    requires
        sets_fit(bands, roots),
        0 <= n <= ends.len(),
        forall|e: int| 0 <= e < ends.len() ==> live(bands, #[trigger] ends[e] as int),
    ensures
        sets_fit(bands, seed_joined(roots, ends, n)),
    decreases n,
{
    if n > 1 {
        lemma_seed_joined_fits(bands, roots, ends, n - 1);
        assert(live(bands, ends[0] as int) && live(bands, ends[n - 1] as int));
        lemma_merged_fits(bands, seed_joined(roots, ends, n - 1), ends[0] as int, ends[n - 1] as int);
    }
}

proof fn lemma_seeds_joined_fits(bands: Seq<Band>, roots: Seq<int>, seeds: Seq<ConnectorSeed>, n: int)
    requires
        sets_fit(bands, roots),
        0 <= n <= seeds.len(),
        forall|k: int| 0 <= k < n ==> seed_fits(bands, #[trigger] seeds[k]),
    ensures
        sets_fit(bands, seeds_joined(roots, seeds, n)),
    decreases n,
{
    if n > 0 {
        lemma_seeds_joined_fits(bands, roots, seeds, n - 1);
        assert(seed_fits(bands, seeds[n - 1]));
        lemma_seed_joined_fits(
            bands,
            seeds_joined(roots, seeds, n - 1),
            seeds[n - 1].ends@,
            seeds[n - 1].ends@.len() as int,
        );
    }
}

proof fn lemma_net_fits(a: Listing, reach: int)
    requires
        a.fits(),
    ensures
        net_fits(a.net(reach)),
{
    let singles = Seq::new(slot_count(a.bands) as nat, |i: int| i);
    lemma_joined_fits(a.bands, singles, a.evidence.coincident@, a.evidence.coincident@.len() as int);
    lemma_seeds_joined_fits(
        a.bands,
        coincidence_sets(a.bands, a.evidence),
        a.evidence.seeds@,
        a.evidence.seeds@.len() as int,
    );
}

/// What each band brings to a node: its other end's correction, weighted.
spec fn pull_values(net: Net, c: Seq<int>, node: int) -> Seq<int> {
    Seq::new(
        net.bands.len(),
        |i: int|
            {
                let (p, q) = (node_of(net, 2 * i), node_of(net, 2 * i + 1));
                let w = edge_weight(net.bands[i].length as int);
                if !is_edge(net, i) {
                    0
                } else if p == node {
                    w * c[q]
                } else if q == node {
                    w * c[p]
                } else {
                    0
                }
            },
    )
}

spec fn mass_values(net: Net, node: int) -> Seq<int> {
    Seq::new(
        net.bands.len(),
        |i: int|
            if is_edge(net, i) && (node_of(net, 2 * i) == node || node_of(net, 2 * i + 1) == node) {
                edge_weight(net.bands[i].length as int)
            } else {
                0
            },
    )
}

proof fn lemma_pull_prefix(a: Seq<Edge>, b: Seq<Edge>, c: Seq<int>, node: int, n: int)
    requires
        n <= a.len(),
        n <= b.len(),
        forall|k: int| 0 <= k < n ==> #[trigger] a[k] == b[k],
    ensures
        pull(a, c, node, n) == pull(b, c, node, n),
        mass(a, node, n) == mass(b, node, n),
    decreases n,
{
    if n > 0 {
        lemma_pull_prefix(a, b, c, node, n - 1);
    }
}

proof fn lemma_pull_total(net: Net, c: Seq<int>, node: int, n: int)
    requires
        net_fits(net),
        0 <= n <= net.bands.len(),
    ensures
        pull(edges_of(net, n), c, node, edges_of(net, n).len() as int) == total(pull_values(net, c, node), n),
        mass(edges_of(net, n), node, edges_of(net, n).len() as int) == total(mass_values(net, node), n),
    decreases n,
{
    if n > 0 {
        lemma_pull_total(net, c, node, n - 1);
        let (rest, now) = (edges_of(net, n - 1), edges_of(net, n));
        let i = n - 1;
        if is_edge(net, i) {
            assert(live(net.bands, 2 * i) && live(net.bands, 2 * i + 1));
            lemma_node_of(net, 2 * i);
            lemma_node_of(net, 2 * i + 1);
            lemma_node_roots(net, slot_count(net.bands));
            lemma_edge_weight(net.bands[i].length as int);
            lemma_pull_prefix(rest, now, c, node, rest.len() as int);
        }
    }
}

proof fn lemma_relaxed_len(edges: Seq<Edge>, pinned: Seq<bool>, c: Seq<int>, k: int)
    ensures
        relaxed(edges, pinned, c, k).len() == c.len(),
    decreases k,
{
    if k > 0 {
        lemma_relaxed_len(edges, pinned, c, k - 1);
    }
}

/// The corrections of a network after `k` sweeps.
spec fn corrections(net: Net, k: int) -> Seq<int> {
    relaxed(edges_of(net, net.bands.len() as int), pins(net), first_corrections(net), k)
}

/// Bands tie the same joints in both listings.
proof fn lemma_same_edge(r: Reordering, a: Listing, b: Listing, reach: int, i: int, at: int)
    requires
        same_network(r, a, b),
        a.fits(),
        b.fits(),
        0 <= i < a.bands.len(),
        live(a.bands, at),
    ensures
        ({
            let (m, n) = (a.net(reach), b.net(reach));
            let (j, bt) = (r.to[i], slot_to(r.to, at));
            &&& b.bands[j] == a.bands[i]
            &&& live(b.bands, bt)
            &&& is_edge(m, i) == is_edge(n, j)
            &&& live_band(a.bands, i) ==> (node_of(m, 2 * i) == node_of(m, at)) == (node_of(n, 2 * j) == node_of(n, bt))
            &&& live_band(a.bands, i) ==> (node_of(m, 2 * i + 1) == node_of(m, at)) == (node_of(n, 2 * j + 1) == node_of(
                n,
                bt,
            ))
        }),
{
    let count = a.bands.len() as int;
    let (m, n) = (a.net(reach), b.net(reach));
    let (j, bt) = (r.to[i], slot_to(r.to, at));
    lemma_net_fits(a, reach);
    lemma_net_fits(b, reach);
    lemma_slot(r.to, r.back, count, at);
    assert(b.bands[r.to[at / 2]] == a.bands[at / 2]);
    assert(b.bands[j] == a.bands[i]);
    assert(slot_to(r.to, 2 * i) == 2 * j && slot_to(r.to, 2 * i + 1) == 2 * j + 1);
    if live_band(a.bands, i) {
        assert(live(a.bands, 2 * i) && live(a.bands, 2 * i + 1) && live(b.bands, 2 * j) && live(b.bands, 2 * j + 1));
        ends_share_a_node_iff_they_share_a_joint(m, 2 * i, 2 * i + 1);
        ends_share_a_node_iff_they_share_a_joint(n, 2 * j, 2 * j + 1);
        ends_share_a_node_iff_they_share_a_joint(m, 2 * i, at);
        ends_share_a_node_iff_they_share_a_joint(n, 2 * j, bt);
        ends_share_a_node_iff_they_share_a_joint(m, 2 * i + 1, at);
        ends_share_a_node_iff_they_share_a_joint(n, 2 * j + 1, bt);
        lemma_same_joint(r, a, b, 2 * i, 2 * i + 1);
        lemma_same_joint(r, a, b, 2 * i, at);
        lemma_same_joint(r, a, b, 2 * i + 1, at);
    }
}

/// One joint is pinned, and first corrected, alike in both listings.
proof fn lemma_same_start(r: Reordering, a: Listing, b: Listing, reach: int, at: int)
    requires
        same_network(r, a, b),
        a.fits(),
        b.fits(),
        stubs_are_clear(a.net(reach)),
        live(a.bands, at),
    ensures
        ({
            let (m, n) = (a.net(reach), b.net(reach));
            let (p, q) = (node_of(m, at), node_of(n, slot_to(r.to, at)));
            &&& 0 <= p < nodes(m).len()
            &&& 0 <= q < nodes(n).len()
            &&& pins(m)[p] == pins(n)[q]
            &&& first_corrections(m)[p] == first_corrections(n)[q]
            &&& seed_of(members_at(m, p)) == seed_of(members_at(n, q))
            &&& own_height(members_at(m, p), street_at_node(m, p)) == own_height(
                members_at(n, q),
                street_at_node(n, q),
            )
        }),
{
    let (m, n) = (a.net(reach), b.net(reach));
    let bt = slot_to(r.to, at);
    lemma_net_fits(a, reach);
    lemma_net_fits(b, reach);
    lemma_slot(r.to, r.back, a.bands.len() as int, at);
    assert(b.bands[r.to[at / 2]] == a.bands[at / 2]);
    lemma_node_of(m, at);
    lemma_node_of(n, bt);
    lemma_same_resolution(r, a, b, reach, at);
}

/// One joint is corrected alike in both listings after every sweep.
proof fn lemma_same_correction(r: Reordering, a: Listing, b: Listing, reach: int, at: int, k: int)
    requires
        same_network(r, a, b),
        a.fits(),
        b.fits(),
        stubs_are_clear(a.net(reach)),
        live(a.bands, at),
    ensures
        corrections(a.net(reach), k)[node_of(a.net(reach), at)] == corrections(b.net(reach), k)[node_of(
            b.net(reach),
            slot_to(r.to, at),
        )],
    decreases k,
{
    let (m, n) = (a.net(reach), b.net(reach));
    let count = a.bands.len() as int;
    let (p, q) = (node_of(m, at), node_of(n, slot_to(r.to, at)));
    lemma_same_start(r, a, b, reach, at);
    if k > 0 {
        let (c, d) = (corrections(m, k - 1), corrections(n, k - 1));
        lemma_same_correction(r, a, b, reach, at, k - 1);
        lemma_relaxed_len(edges_of(m, count), pins(m), first_corrections(m), k - 1);
        lemma_relaxed_len(edges_of(n, count), pins(n), first_corrections(n), k - 1);
        lemma_net_fits(a, reach);
        lemma_net_fits(b, reach);
        lemma_pull_total(m, c, p, count);
        lemma_pull_total(n, d, q, count);
        assert forall|i: int| 0 <= i < count implies pull_values(n, d, q)[#[trigger] r.to[i]] == pull_values(m, c, p)[i]
            && mass_values(n, q)[r.to[i]] == mass_values(m, p)[i] by {
            lemma_same_edge(r, a, b, reach, i, at);
            if is_edge(m, i) {
                assert(live(a.bands, 2 * i) && live(a.bands, 2 * i + 1));
                lemma_same_correction(r, a, b, reach, 2 * i, k - 1);
                lemma_same_correction(r, a, b, reach, 2 * i + 1, k - 1);
                assert(slot_to(r.to, 2 * i) == 2 * r.to[i] && slot_to(r.to, 2 * i + 1) == 2 * r.to[i] + 1);
            }
        }
        lemma_total_reordered(pull_values(m, c, p), pull_values(n, d, q), r.to, r.back, count);
        lemma_total_reordered(mass_values(m, p), mass_values(n, q), r.to, r.back, count);
    }
}

/// Every end on the graph has the same height in both listings of a network.
pub proof fn heights_do_not_depend_on_the_order(r: Reordering, a: Listing, b: Listing, reach: int, at: int)
    requires
        same_network(r, a, b),
        a.fits(),
        b.fits(),
        stubs_are_clear(a.net(reach)),
        live(a.bands, at),
    ensures
        solved_height(a.net(reach), node_of(a.net(reach), at)) == solved_height(
            b.net(reach),
            node_of(b.net(reach), slot_to(r.to, at)),
        ),
{
    lemma_same_start(r, a, b, reach, at);
    lemma_same_correction(r, a, b, reach, at, SWEEPS as int);
}

/// Reordering the bands changes no band: each is stamped with the same heights,
/// whatever order the bands and the evidence of them came in.
pub proof fn bands_are_stamped_alike_in_any_order(
    r: Reordering,
    a: Listing,
    b: Listing,
    reach: int,
    g: WalkGraph,
    h: WalkGraph,
    i: int,
)
    requires
        same_network(r, a, b),
        a.fits(),
        b.fits(),
        stubs_are_clear(a.net(reach)),
        g.describes(a.net(reach)),
        h.describes(b.net(reach)),
        0 <= i < a.bands.len(),
    ensures
        stamped(h, b.bands, r.to[i]) == stamped(g, a.bands, i),
{
    let (m, n) = (a.net(reach), b.net(reach));
    assert(b.bands[r.to[i]] == a.bands[i]);
    if live_band(a.bands, i) && !hosted(a.bands, i) {
        let (p, q) = (2 * i, 2 * i + 1);
        assert(live(a.bands, p) && live(a.bands, q));
        assert(slot_to(r.to, p) == 2 * r.to[i] && slot_to(r.to, q) == 2 * r.to[i] + 1);
        lemma_same_start(r, a, b, reach, p);
        lemma_same_start(r, a, b, reach, q);
        heights_do_not_depend_on_the_order(r, a, b, reach, p);
        heights_do_not_depend_on_the_order(r, a, b, reach, q);
        lemma_node_roots(m, slot_count(a.bands));
        lemma_node_roots(n, slot_count(b.bands));
        assert(g.node_of_slot@[p] == node_of(m, p) && g.node_of_slot@[q] == node_of(m, q));
        assert(h.node_of_slot@[slot_to(r.to, p)] == node_of(n, slot_to(r.to, p)));
        assert(h.node_of_slot@[slot_to(r.to, q)] == node_of(n, slot_to(r.to, q)));
    }
}

} // verus!
