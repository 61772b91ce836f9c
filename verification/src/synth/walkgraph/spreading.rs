//! How a joint's height comes about, and how the correction of a pinned joint
//! spreads along the paths to its neighbours.
use vstd::prelude::*;

use crate::arith::{a_mean_is_rounded_down, a_quotient_is_cut_toward_zero, abs, mean, quot, total};
use crate::synth::walkgraph::{
    a_pin_stays_within_reach, edge_weight, edges_fit, edges_of, first_corrections, hosted, is_edge, lemma_edge_weight,
    lemma_edges_fit, lemma_joint_members_fit, lemma_node_of, lemma_node_roots, lemma_pull_bounds, live, mass,
    members_at, net_fits, node_of, nodes, pin_of, pins, pull, relaxation_keeps_pins, relaxation_stays_within_reach,
    relaxed, seat_count, seat_sum, seed_of, slot_count, solved_height, stamped, street_at_node, swept, within_reach,
    Edge, Member, Net, WalkGraph, NO_HOST, REACH_UM, SWEEPS,
};

verus! {

// ---------------------------------------------------------------------------
// One sweep.
// ---------------------------------------------------------------------------

proof fn lemma_totals(
    edges: Seq<Edge>,
    c: Seq<int>,
    node: int,
    brought: Seq<int>,
    weights: Seq<int>,
    n: int,
)
    requires
        0 <= n <= edges.len(),
        brought.len() == edges.len(),
        weights.len() == edges.len(),
        brings(edges, c, node, brought, weights),
    ensures
        pull(edges, c, node, n) == total(brought.take(n)),
        mass(edges, node, n) == total(weights.take(n)),
    decreases n,
{
    if n > 0 {
        lemma_totals(edges, c, node, brought, weights, n - 1);
        assert(brought.take(n).drop_last() =~= brought.take(n - 1));
        assert(weights.take(n).drop_last() =~= weights.take(n - 1));
        assert(brought[n - 1] == brought.take(n).last());
        assert(weights[n - 1] == weights.take(n).last());
    }
}

/// What every edge brings a node: its weight times the correction at its other
/// end, and its weight, where it leads to the node at all.
pub open spec fn brings(
    edges: Seq<Edge>,
    c: Seq<int>,
    node: int,
    brought: Seq<int>,
    weights: Seq<int>,
) -> bool {
    &&& brought.len() == edges.len()
    &&& weights.len() == edges.len()
    &&& forall|k: int| 0 <= k < edges.len() ==> #[trigger] brought[k] == if edges[k].a == node {
        edges[k].weight * c[edges[k].b as int]
    } else if edges[k].b == node {
        edges[k].weight * c[edges[k].a as int]
    } else {
        0
    }
    &&& forall|k: int| 0 <= k < edges.len() ==> #[trigger] weights[k] == if edges[k].a == node
        || edges[k].b == node {
        edges[k].weight as int
    } else {
        0
    }
}

/// One sweep gives a free node the mean of its neighbours' corrections, each
/// weighed by its edge, with the ground weighing in at half a metre's worth,
/// cut toward zero. A pinned node, and one no edge leads to, keeps its own.
pub proof fn a_sweep_takes_the_screened_mean(
    edges: Seq<Edge>,
    pinned: Seq<bool>,
    c: Seq<int>,
    node: int,
    brought: Seq<int>,
    weights: Seq<int>,
)
    requires
        edges_fit(edges, c.len() as int),
        within_reach(c),
        0 <= node < c.len(),
        brings(edges, c, node, brought, weights),
    ensures
        swept(edges, pinned, c).len() == c.len(),
        ({
            let v = swept(edges, pinned, c)[node];
            let screened = 500_000_000 + total(weights);
            &&& pinned[node] || total(weights) == 0 ==> v == c[node]
            &&& !pinned[node] && total(weights) != 0 && total(brought) >= 0 ==> v * screened <= total(
                brought,
            ) < (v + 1) * screened
            &&& !pinned[node] && total(weights) != 0 && total(brought) < 0 ==> (v - 1) * screened
                < total(brought) <= v * screened
        }),
{
    let n = edges.len() as int;
    lemma_totals(edges, c, node, brought, weights, n);
    lemma_pull_bounds(edges, c, node, n);
    assert(brought.take(n) =~= brought);
    assert(weights.take(n) =~= weights);
    a_quotient_is_cut_toward_zero(pull(edges, c, node, n), 500_000_000 + mass(edges, node, n));
}

proof fn lemma_one_edge(edges: Seq<Edge>, c: Seq<int>, node: int, k: int, n: int)
    requires
        0 <= k < edges.len(),
        0 <= n <= edges.len(),
        edges[k].a == node || edges[k].b == node,
        forall|j: int|
            0 <= j < edges.len() && j != k ==> (#[trigger] edges[j]).a != node && edges[j].b != node,
    ensures
        mass(edges, node, n) == if k < n {
            edges[k].weight as int
        } else {
            0
        },
        pull(edges, c, node, n) == if k >= n {
            0
        } else if edges[k].a == node {
            edges[k].weight * c[edges[k].b as int]
        } else {
            edges[k].weight * c[edges[k].a as int]
        },
    decreases n,
{
    if n > 0 {
        lemma_one_edge(edges, c, node, k, n - 1);
    }
}

/// A free node at the end of a single edge is given the edge's share of the
/// correction at its other end, whichever end of the edge it is.
pub proof fn the_end_of_a_path_takes_its_share(
    edges: Seq<Edge>,
    pinned: Seq<bool>,
    c: Seq<int>,
    k: int,
    node: int,
    other: int,
)
    requires
        0 <= node < c.len(),
        0 <= k < edges.len(),
        edges[k].weight > 0,
        (edges[k].a == node && edges[k].b == other) || (edges[k].a == other && edges[k].b == node),
        forall|j: int|
            0 <= j < edges.len() && j != k ==> (#[trigger] edges[j]).a != node && edges[j].b != node,
        node != other,
        !pinned[node],
    ensures
        swept(edges, pinned, c)[node] == quot(
            edges[k].weight * c[other],
            500_000_000 + edges[k].weight,
        ),
{
    lemma_one_edge(edges, c, node, k, edges.len() as int);
}

/// Whether two lists of edges differ at most in the direction of each.
pub open spec fn same_but_for_direction(edges: Seq<Edge>, others: Seq<Edge>) -> bool {
    &&& edges.len() == others.len()
    &&& forall|k: int| 0 <= k < edges.len() ==> {
        ||| #[trigger] others[k] == edges[k]
        ||| others[k] == (Edge { a: edges[k].b, b: edges[k].a, weight: edges[k].weight })
    }
}

proof fn lemma_direction(edges: Seq<Edge>, others: Seq<Edge>, c: Seq<int>, node: int, n: int)
    requires
        same_but_for_direction(edges, others),
        edges_fit(edges, c.len() as int),
        0 <= n <= edges.len(),
    ensures
        pull(edges, c, node, n) == pull(others, c, node, n),
        mass(edges, node, n) == mass(others, node, n),
    decreases n,
{
    if n > 0 {
        lemma_direction(edges, others, c, node, n - 1);
        assert(others[n - 1] == edges[n - 1] || others[n - 1] == (Edge {
            a: edges[n - 1].b,
            b: edges[n - 1].a,
            weight: edges[n - 1].weight,
        }));
    }
}

/// Relaxation does not depend on the direction a band is drawn in: turning any
/// of the edges round leaves every correction as it was.
pub proof fn relaxation_has_no_direction(
    edges: Seq<Edge>,
    others: Seq<Edge>,
    pinned: Seq<bool>,
    c: Seq<int>,
    k: int,
)
    requires
        same_but_for_direction(edges, others),
        edges_fit(edges, c.len() as int),
        within_reach(c),
    ensures
        relaxed(edges, pinned, c, k) == relaxed(others, pinned, c, k),
    decreases k,
{
    if k > 0 {
        relaxation_has_no_direction(edges, others, pinned, c, k - 1);
        let before = relaxed(edges, pinned, c, k - 1);
        relaxation_stays_within_reach(edges, pinned, c, k - 1);
        let a = swept(edges, pinned, before);
        let b = swept(others, pinned, before);
        assert forall|node: int| 0 <= node < before.len() implies #[trigger] a[node] == b[node] by {
            lemma_direction(edges, others, before, node, edges.len() as int);
        }
        assert(a =~= b);
    }
}

/// Relaxation is as many sweeps as asked for, each over what the last one gave.
pub proof fn relaxation_is_sweep_after_sweep(edges: Seq<Edge>, pinned: Seq<bool>, c: Seq<int>, k: int)
    requires
        0 <= k,
    ensures
        relaxed(edges, pinned, c, 0) == c,
        relaxed(edges, pinned, c, k + 1) == swept(edges, pinned, relaxed(edges, pinned, c, k)),
{
}

// ---------------------------------------------------------------------------
// The edges.
// ---------------------------------------------------------------------------

/// A band weighs one over its length in metres, in billionths, and no more than
/// one of half a metre.
pub proof fn an_edge_weighs_one_over_its_length(length: int)
    ensures
        length >= 500_000 ==> edge_weight(length) * length <= 1_000_000_000_000_000 < (edge_weight(
            length,
        ) + 1) * length,
        length < 500_000 ==> edge_weight(length) == 2_000_000_000,
{
    if length >= 500_000 {
        lemma_floor(1_000_000_000_000_000, length);
    } else {
        assert(1_000_000_000_000_000int / 500_000int == 2_000_000_000);
        assert(edge_weight(length) == 1_000_000_000_000_000int / 500_000int);
    }
}

proof fn lemma_floor(a: int, b: int)
    requires
        b > 0,
    ensures
        (a / b) * b <= a < (a / b + 1) * b,
{
    assert((a / b) * b <= a < (a / b + 1) * b) by (nonlinear_arith)
        requires
            b > 0,
    ;
}

/// Every free band on the graph between two different joints ties them with its
/// weight, and nothing else does.
pub proof fn every_free_band_ties_its_joints(net: Net, n: int)
    requires
        net_fits(net),
        0 <= n <= net.bands.len(),
    ensures
        forall|i: int|
            0 <= i < n && (#[trigger] net.bands[i]).level == 0 && net.bands[i].corridor == NO_HOST
                && node_of(net, 2 * i) != node_of(net, 2 * i + 1) ==> exists|k: int|
                0 <= k < edges_of(net, n).len() && ties(net, #[trigger] edges_of(net, n)[k], i),
        forall|k: int|
            0 <= k < edges_of(net, n).len() ==> exists|i: int|
                0 <= i < n && (#[trigger] net.bands[i]).level == 0 && net.bands[i].corridor == NO_HOST
                    && node_of(net, 2 * i) != node_of(net, 2 * i + 1) && ties(
                    net,
                    #[trigger] edges_of(net, n)[k],
                    i,
                ),
    decreases n,
{
    if n > 0 {
        every_free_band_ties_its_joints(net, n - 1);
        lemma_edges_fit(net, n);
        let rest = edges_of(net, n - 1);
        let all = edges_of(net, n);
        lemma_edge_weight(net.bands[n - 1].length as int);
        if is_edge(net, n - 1) {
            assert(live(net.bands, 2 * (n - 1)) && live(net.bands, 2 * (n - 1) + 1));
            lemma_node_of(net, 2 * (n - 1));
            lemma_node_of(net, 2 * (n - 1) + 1);
            lemma_node_roots(net, slot_count(net.bands));
            assert(ties(net, all[rest.len() as int], n - 1));
        }
        assert forall|i: int|
            0 <= i < n && (#[trigger] net.bands[i]).level == 0 && net.bands[i].corridor == NO_HOST
                && node_of(net, 2 * i) != node_of(net, 2 * i + 1) implies exists|k: int|
            0 <= k < all.len() && ties(net, #[trigger] all[k], i) by {
            if i < n - 1 {
                let k = choose|k: int| 0 <= k < rest.len() && ties(net, #[trigger] rest[k], i);
                assert(all[k] == rest[k]);
            } else {
                assert(is_edge(net, n - 1));
            }
        }
        assert forall|k: int| 0 <= k < all.len() implies exists|i: int|
            0 <= i < n && (#[trigger] net.bands[i]).level == 0 && net.bands[i].corridor == NO_HOST
                && node_of(net, 2 * i) != node_of(net, 2 * i + 1) && ties(
                net,
                #[trigger] all[k],
                i,
            ) by {
            if k < rest.len() {
                assert(all[k] == rest[k]);
                let i = choose|i: int|
                    0 <= i < n - 1 && (#[trigger] net.bands[i]).level == 0 && net.bands[i].corridor
                        == NO_HOST && node_of(net, 2 * i) != node_of(net, 2 * i + 1) && ties(
                        net,
                        rest[k],
                        i,
                    );
                assert(ties(net, all[k], i));
            } else {
                assert(net.bands[n - 1].level == 0);
            }
        }
    }
}

/// Whether an edge leads from the joint of a band's one end to that of its
/// other, with the band's weight.
pub open spec fn ties(net: Net, e: Edge, band: int) -> bool {
    &&& e.a == node_of(net, 2 * band)
    &&& e.b == node_of(net, 2 * band + 1)
    &&& e.weight == edge_weight(net.bands[band].length as int)
}

// ---------------------------------------------------------------------------
// A joint's own height.
// ---------------------------------------------------------------------------

/// The seats of the hosted, or of the free, among some members, and nought for
/// the others.
pub open spec fn seats(m: Seq<Member>, hosted: bool, heights: Seq<int>, ones: Seq<int>) -> bool {
    &&& heights.len() == m.len()
    &&& ones.len() == m.len()
    &&& forall|k: int| 0 <= k < m.len() ==> #[trigger] heights[k] == if m[k].hosted == hosted {
        m[k].height as int
    } else {
        0
    }
    &&& forall|k: int| 0 <= k < m.len() ==> #[trigger] ones[k] == if m[k].hosted == hosted {
        1int
    } else {
        0
    }
}

proof fn lemma_seats(m: Seq<Member>, hosted: bool, heights: Seq<int>, ones: Seq<int>, n: int)
    requires
        seats(m, hosted, heights, ones),
        0 <= n <= m.len(),
    ensures
        seat_sum(m, hosted, n) == total(heights.take(n)),
        seat_count(m, hosted, n) == total(ones.take(n)),
        seat_count(m, hosted, n) >= 0,
    decreases n,
{
    if n > 0 {
        lemma_seats(m, hosted, heights, ones, n - 1);
        assert(heights.take(n).drop_last() =~= heights.take(n - 1));
        assert(ones.take(n).drop_last() =~= ones.take(n - 1));
        assert(heights[n - 1] == heights.take(n).last());
        assert(ones[n - 1] == ones.take(n).last());
    }
}

/// A joint starts from the mean seat of the free members standing at it, or of
/// the hosted ones where none is free, rounded down.
pub proof fn a_joint_starts_from_its_free_members(
    m: Seq<Member>,
    free: Seq<int>,
    free_ones: Seq<int>,
    held: Seq<int>,
    held_ones: Seq<int>,
)
    requires
        m.len() > 0,
        seats(m, false, free, free_ones),
        seats(m, true, held, held_ones),
    ensures
        total(free_ones) > 0 ==> seed_of(m) * total(free_ones) <= total(free) < (seed_of(m) + 1) * total(
            free_ones,
        ),
        total(free_ones) == 0 ==> seed_of(m) * total(held_ones) <= total(held) < (seed_of(m) + 1)
            * total(held_ones),
        total(free_ones) + total(held_ones) == m.len(),
{
    let n = m.len() as int;
    lemma_seats(m, false, free, free_ones, n);
    lemma_seats(m, true, held, held_ones, n);
    lemma_all_counted(m, n);
    assert(free.take(n) =~= free && free_ones.take(n) =~= free_ones);
    assert(held.take(n) =~= held && held_ones.take(n) =~= held_ones);
    if total(free_ones) > 0 {
        a_mean_is_rounded_down(total(free), total(free_ones));
    } else {
        a_mean_is_rounded_down(total(held), total(held_ones));
    }
}

proof fn lemma_all_counted(m: Seq<Member>, n: int)
    requires
        0 <= n <= m.len(),
    ensures
        seat_count(m, false, n) + seat_count(m, true, n) == n,
    decreases n,
{
    if n > 0 {
        lemma_all_counted(m, n - 1);
    }
}

/// A joint is pinned to the mean seat of the hosted members standing at it; to
/// the street's surface where none is hosted; and not at all where that is
/// further than the reach from the ground, unless nothing free stands there.
pub proof fn a_joint_is_pinned_to_what_hosts_it(
    m: Seq<Member>,
    street: Option<int>,
    held: Seq<int>,
    ones: Seq<int>,
)
    requires
        m.len() > 0,
        seats(m, true, held, ones),
    ensures
        total(ones) == m.len() ==> pin_of(m, street) is Some,
        total(ones) > 0 && pin_of(m, street) is Some ==> pin_of(m, street)->0 * total(ones) <= total(
            held,
        ) < (pin_of(m, street)->0 + 1) * total(ones),
        0 < total(ones) < m.len() && pin_of(m, street) is Some ==> abs(
            pin_of(m, street)->0 - seed_of(m),
        ) <= 3_000_000,
        0 < total(ones) < m.len() && pin_of(m, street) is None ==> forall|h: int|
            #![trigger h * total(ones)]
            h * total(ones) <= total(held) < (h + 1) * total(ones) ==> abs(h - seed_of(m)) > 3_000_000,
        total(ones) == 0 && street is None ==> pin_of(m, street) is None,
        total(ones) == 0 ==> (street matches Some(h) ==> pin_of(m, street) == if abs(h - seed_of(m))
            <= 3_000_000 {
            Some(h)
        } else {
            None
        }),
{
    let n = m.len() as int;
    lemma_seats(m, true, held, ones, n);
    lemma_all_counted(m, n);
    assert(held.take(n) =~= held && ones.take(n) =~= ones);
    if total(ones) > 0 {
        a_mean_is_rounded_down(total(held), total(ones));
        let q = mean(total(held), total(ones));
        assert forall|h: int|
            #![trigger h * total(ones)]
            h * total(ones) <= total(held) < (h + 1) * total(ones) implies h == q by {
            let d = total(ones);
            let s = total(held);
            assert(h == q) by (nonlinear_arith)
                requires
                    h * d <= s < (h + 1) * d,
                    q * d <= s < (q + 1) * d,
                    d > 0,
            ;
        }
    }
}

// ---------------------------------------------------------------------------
// The solved height.
// ---------------------------------------------------------------------------

/// A pinned joint's height is its pin. Every other joint's is the ground it
/// starts from and the correction that relaxation, from what the pins moved
/// their joints by, brings it over thirty-two sweeps.
pub proof fn a_joint_is_pinned_or_corrected(net: Net, k: int)
    requires
        net_fits(net),
        0 <= k < nodes(net).len(),
    ensures
        ({
            let m = members_at(net, k);
            let pin = pin_of(m, street_at_node(net, k));
            let moved = first_corrections(net);
            let all = edges_of(net, net.bands.len() as int);
            &&& moved.len() == nodes(net).len()
            &&& pin matches Some(h) ==> solved_height(net, k) == h && moved[k] == h - seed_of(m)
            &&& pin is None ==> moved[k] == 0
            &&& pin is None ==> solved_height(net, k) == seed_of(m) + relaxed(all, pins(net), moved, 32)[k]
            &&& pins(net)[k] == (pin is Some)
        }),
{
    let all = edges_of(net, net.bands.len() as int);
    lemma_edges_fit(net, net.bands.len() as int);
    lemma_first_corrections(net);
    relaxation_stays_within_reach(all, pins(net), first_corrections(net), SWEEPS as int);
    let r = relaxed(all, pins(net), first_corrections(net), SWEEPS as int);
    assert(-REACH_UM <= r[k] <= REACH_UM);
}

proof fn lemma_first_corrections(net: Net)
    requires
        net_fits(net),
    ensures
        within_reach(first_corrections(net)),
{
    let c = first_corrections(net);
    lemma_node_roots(net, slot_count(net.bands));
    assert forall|k: int| 0 <= k < c.len() implies -REACH_UM <= #[trigger] c[k] <= REACH_UM by {
        lemma_joint_members_fit(net, nodes(net)[k]);
        a_pin_stays_within_reach(members_at(net, k), street_at_node(net, k));
    }
}

/// A path's free end takes its share of the correction at the pinned end: the
/// joint at the end of a single path, itself unpinned, stands off its ground by
/// that share, whichever way the path is drawn.
pub proof fn a_free_end_follows_the_pinned_one(net: Net, band: int, node: int, other: int)
    requires
        net_fits(net),
        0 <= band < net.bands.len(),
        net.bands[band].level == 0,
        net.bands[band].corridor == NO_HOST,
        (node == node_of(net, 2 * band) && other == node_of(net, 2 * band + 1)) || (node == node_of(
            net,
            2 * band + 1,
        ) && other == node_of(net, 2 * band)),
        node != other,
        forall|i: int|
            0 <= i < net.bands.len() && i != band && (#[trigger] net.bands[i]).level == 0
                && net.bands[i].corridor == NO_HOST ==> node_of(net, 2 * i) != node && node_of(
                net,
                2 * i + 1,
            ) != node,
        pin_of(members_at(net, node), street_at_node(net, node)) is None,
        pin_of(members_at(net, other), street_at_node(net, other)) is Some,
        net.bands[band].length <= 1_000_000_000_000_000,
    ensures
        ({
            let pin = pin_of(members_at(net, other), street_at_node(net, other))->0;
            let moved = pin - seed_of(members_at(net, other));
            let weight = edge_weight(net.bands[band].length as int);
            &&& solved_height(net, other) == pin
            &&& solved_height(net, node) == seed_of(members_at(net, node)) + quot(
                weight * moved,
                500_000_000 + weight,
            )
        }),
{
    let n = net.bands.len() as int;
    let all = edges_of(net, n);
    let pinned = pins(net);
    let c = first_corrections(net);
    assert(live(net.bands, 2 * band) && live(net.bands, 2 * band + 1));
    lemma_node_of(net, 2 * band);
    lemma_node_of(net, 2 * band + 1);
    lemma_edges_fit(net, n);
    lemma_only_edge(net, band, node, n);
    let e = choose|e: int|
        0 <= e < all.len() && ties(net, #[trigger] all[e], band) && forall|j: int|
            0 <= j < all.len() && j != e ==> (#[trigger] all[j]).a != node && all[j].b != node;
    a_joint_is_pinned_or_corrected(net, node);
    a_joint_is_pinned_or_corrected(net, other);
    relaxation_keeps_pins(all, pinned, c, 31, other);
    let before = relaxed(all, pinned, c, 31);
    let length = net.bands[band].length as int;
    lemma_edge_weight(length);
    assert(edge_weight(length) >= 1) by {
        an_edge_weighs_one_over_its_length(length);
        if length >= 500_000 {
            let q = edge_weight(length);
            assert(q >= 1) by (nonlinear_arith)
                requires
                    1_000_000_000_000_000 < (q + 1) * length,
                    length <= 1_000_000_000_000_000,
                    length > 0,
            ;
        }
    }
    the_end_of_a_path_takes_its_share(all, pinned, before, e, node, other);
    relaxation_is_sweep_after_sweep(all, pinned, c, 31);
}

/// A joint only one free band leads to is touched by that band's edge alone.
proof fn lemma_only_edge(net: Net, band: int, node: int, n: int)
    requires
        net_fits(net),
        0 <= band < net.bands.len(),
        0 <= n <= net.bands.len(),
        is_edge(net, band),
        forall|i: int|
            0 <= i < net.bands.len() && i != band && (#[trigger] net.bands[i]).level == 0
                && net.bands[i].corridor == NO_HOST ==> node_of(net, 2 * i) != node && node_of(
                net,
                2 * i + 1,
            ) != node,
    ensures
        n <= band ==> forall|j: int|
            0 <= j < edges_of(net, n).len() ==> (#[trigger] edges_of(net, n)[j]).a != node && edges_of(
                net,
                n,
            )[j].b != node,
        n > band ==> exists|e: int|
            0 <= e < edges_of(net, n).len() && ties(net, #[trigger] edges_of(net, n)[e], band)
                && forall|j: int|
                0 <= j < edges_of(net, n).len() && j != e ==> (#[trigger] edges_of(net, n)[j]).a != node
                    && edges_of(net, n)[j].b != node,
    decreases n,
{
    if n > 0 {
        lemma_only_edge(net, band, node, n - 1);
        lemma_edges_fit(net, n);
        let i = n - 1;
        let rest = edges_of(net, n - 1);
        let all = edges_of(net, n);
        lemma_edge_weight(net.bands[i].length as int);
        if is_edge(net, i) {
            assert(live(net.bands, 2 * i) && live(net.bands, 2 * i + 1));
            lemma_node_of(net, 2 * i);
            lemma_node_of(net, 2 * i + 1);
            lemma_node_roots(net, slot_count(net.bands));
            assert(ties(net, all.last(), i));
            assert(all.len() == rest.len() + 1);
            if i == band {
                let e = rest.len() as int;
                assert(ties(net, all[e], band));
                assert forall|j: int| 0 <= j < all.len() && j != e implies (#[trigger] all[j]).a != node
                    && all[j].b != node by {
                    assert(all[j] == rest[j]);
                }
            } else {
                assert(net.bands[i].level == 0);
                assert(node_of(net, 2 * i) != node && node_of(net, 2 * i + 1) != node);
            }
        }
        if i != band {
            if n <= band {
                assert forall|j: int| 0 <= j < all.len() implies (#[trigger] all[j]).a != node
                    && all[j].b != node by {
                    if j < rest.len() {
                        assert(all[j] == rest[j]);
                    }
                }
            } else {
                let e = choose|e: int|
                    0 <= e < rest.len() && ties(net, #[trigger] rest[e], band) && forall|j: int|
                        0 <= j < rest.len() && j != e ==> (#[trigger] rest[j]).a != node && rest[j].b
                            != node;
                assert(all[e] == rest[e]);
                assert(ties(net, all[e], band));
                assert forall|j: int| 0 <= j < all.len() && j != e implies (#[trigger] all[j]).a != node
                    && all[j].b != node by {
                    if j < rest.len() {
                        assert(all[j] == rest[j]);
                    }
                }
            }
        }
    }
}

/// Stamping gives each end of a free band on the graph the solved height of the
/// joint that end stands at.
pub proof fn a_free_band_is_stamped_with_its_joints(g: WalkGraph, net: Net, i: int)
    requires
        net_fits(net),
        g.describes(net),
        0 <= i < net.bands.len(),
        net.bands[i].level == 0,
        net.bands[i].corridor == NO_HOST,
    ensures
        stamped(g, net.bands, i).height_a == solved_height(net, node_of(net, 2 * i)),
        stamped(g, net.bands, i).height_b == solved_height(net, node_of(net, 2 * i + 1)),
{
    assert(live(net.bands, 2 * i) && live(net.bands, 2 * i + 1));
    lemma_node_of(net, 2 * i);
    lemma_node_of(net, 2 * i + 1);
    assert(g.node_of_slot@[2 * i] == node_of(net, 2 * i));
    assert(g.node_of_slot@[2 * i + 1] == node_of(net, 2 * i + 1));
    lemma_node_roots(net, slot_count(net.bands));
    assert(g.height@[node_of(net, 2 * i)] == solved_height(net, node_of(net, 2 * i)));
    assert(g.height@[node_of(net, 2 * i + 1)] == solved_height(net, node_of(net, 2 * i + 1)));
}

} // verus!
