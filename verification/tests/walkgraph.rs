//! The joint graph of the drawn walk network.
use arpentry::plane::{self, Foot, Offset};
use arpentry::synth::walkgraph::evidence::{joints, standings, BandSeen, EndPair, ON_UM};
use arpentry::synth::walkgraph::{
    Band, ConnectorSeed, Evidence, Near, NodeAt, Standing, Street, StubEnd, UnionFind, WalkGraph,
    WalkLine, NO_HOST,
};

const DEG_M: f64 = 111_319.5;
const D: f64 = 20.0 / DEG_M;
const JOIN_M: f64 = 0.6;
const HALF_M: f64 = 1.0;
const STUB_REACH_M: f64 = 3.0;

fn um(m: f64) -> i64 {
    (m * 1e6).round() as i64
}

/// A band with its plan position, in degrees at the equator.
#[derive(Clone, Copy)]
struct Drawn {
    a: (f64, f64),
    b: (f64, f64),
    band: Band,
}

fn band(a: (f64, f64), b: (f64, f64), h: (f64, f64), corridor: u32) -> Drawn {
    let length = metres(a, b);
    Drawn {
        a,
        b,
        band: Band {
            level: 0,
            corridor,
            height_a: um(h.0),
            height_b: um(h.1),
            length: (length * 1e6).round() as u64,
        },
    }
}

fn metres(p: (f64, f64), q: (f64, f64)) -> f64 {
    ((p.0 - q.0) * DEG_M).hypot((p.1 - q.1) * DEG_M)
}

/// How far a point lies from a segment in metres, and how far along the nearest
/// point is.
fn to_segment(p: (f64, f64), a: (f64, f64), b: (f64, f64)) -> (f64, f64) {
    let local = |q: (f64, f64)| Offset { east: um((q.0 - p.0) * DEG_M), north: um((q.1 - p.1) * DEG_M) };
    let foot = plane::to_segment(local(a), local(b));
    (foot.distance as f64 / 1e6, f64::from(foot.along) / 1e6)
}

fn end(bands: &[Drawn], slot: u32) -> (f64, f64) {
    let s = &bands[(slot / 2) as usize];
    if slot % 2 == 0 {
        s.a
    } else {
        s.b
    }
}

fn seat_along(s: &Drawn, t: f64) -> i64 {
    s.band.height_a + ((s.band.height_b - s.band.height_a) as f64 * t).round() as i64
}

/// What the plan says of the bands.
fn evidence(bands: &[Drawn]) -> Evidence {
    let slots = 2 * bands.len() as u32;
    let mut pairs = Vec::new();
    let mut seen = Vec::new();
    let mut stubs = Vec::new();
    for s in 0..slots {
        let p = end(bands, s);
        for o in 0..slots {
            pairs.push(EndPair { a: s, b: o, distance: um(metres(end(bands, o), p)) as u64 });
        }
        let mut near = Vec::new();
        for (o, t) in bands.iter().enumerate() {
            if o as u32 == s / 2 {
                continue;
            }
            let (d, along) = to_segment(p, t.a, t.b);
            let (band, distance, height) = (o as u32, um(d) as u64, seat_along(t, along));
            near.push(Near { band, distance, height });
            seen.push(BandSeen {
                slot: s,
                band,
                distance,
                half: um(HALF_M) as u64,
                height,
                to_a: um(metres(t.a, p)) as u64,
                to_b: um(metres(t.b, p)) as u64,
            });
        }
        stubs.push(StubEnd { slot: s, near });
    }
    let plain: Vec<Band> = bands.iter().map(|d| d.band).collect();
    let join = um(JOIN_M) as u64;
    let (coincident, standing) = (joints(&pairs, join), standings(&plain, &seen, join));
    Evidence { coincident, seeds: Vec::new(), standing, stubs }
}

fn graph(bands: &[Drawn], sources: &[u64]) -> WalkGraph {
    let plain: Vec<Band> = bands.iter().map(|d| d.band).collect();
    WalkGraph::build_inner(&plain, sources, &evidence(bands), um(STUB_REACH_M) as u64)
}

fn build(bands: &[Drawn]) -> WalkGraph {
    graph(bands, &vec![1; bands.len()])
}

fn stamped(g: &WalkGraph, bands: &[Drawn]) -> Vec<Band> {
    let mut out: Vec<Band> = bands.iter().map(|d| d.band).collect();
    g.stamp(&mut out);
    out
}

/// The nodes of a graph as seen from a point.
fn seen(g: &WalkGraph, bands: &[Drawn], p: (f64, f64)) -> Vec<NodeAt> {
    g.at.iter()
        .enumerate()
        .map(|(node, slot)| NodeAt {
            node: node as u32,
            distance: (metres(end(bands, *slot), p) * 1e6).round() as u64,
        })
        .collect()
}

#[test]
fn a_free_joint_takes_one_height_and_both_bands_get_it() {
    let bands = vec![
        band((0.0, 0.0), (D, 0.0), (100.0, 100.0), NO_HOST),
        band((D, 0.0), (2.0 * D, 0.0), (102.0, 102.0), NO_HOST),
    ];
    let out = stamped(&build(&bands), &bands);
    assert_eq!(
        out[0].height_b, out[1].height_a,
        "the joint is one height: {} vs {}",
        out[0].height_b, out[1].height_a
    );
}

#[test]
fn a_hosted_member_pins_the_joint_and_is_never_moved() {
    let bands = vec![
        band((0.0, 0.0), (D, 0.0), (120.0, 120.0), 7),
        band((D, 0.0), (2.0 * D, 0.0), (118.5, 118.5), NO_HOST),
    ];
    let out = stamped(&build(&bands), &bands);
    assert_eq!(out[0].height_b, um(120.0), "the hosted seat is the pin");
    assert_eq!(out[1].height_a, um(120.0), "the free end takes the hosted seat");
}

#[test]
fn a_disagreement_past_the_reach_is_left_standing() {
    let bands = vec![
        band((0.0, 0.0), (D, 0.0), (120.0, 120.0), 7),
        band((D, 0.0), (2.0 * D, 0.0), (110.0, 110.0), NO_HOST),
    ];
    let g = build(&bands);
    let out = stamped(&g, &bands);
    assert_eq!(out[1].height_a, um(110.0), "the pin is declined, the free seat stands");
    assert_eq!(g.out_of_reach, 1);
}

#[test]
fn a_correction_decays_along_the_chain() {
    let bands = vec![
        band((0.0, 0.0), (D, 0.0), (102.0, 102.0), 7),
        band((D, 0.0), (2.0 * D, 0.0), (100.0, 100.0), NO_HOST),
        band((2.0 * D, 0.0), (3.0 * D, 0.0), (100.0, 100.0), NO_HOST),
        band((3.0 * D, 0.0), (4.0 * D, 0.0), (100.0, 100.0), NO_HOST),
    ];
    let out = stamped(&build(&bands), &bands);
    assert_eq!(out[1].height_a, um(102.0));
    let far = out[3].height_b;
    let near = out[1].height_b;
    assert!(near > far, "the correction decays: near {near}, far {far}");
    assert!(far < um(100.7), "the far end barely moves, got {far}");
}

#[test]
fn the_result_is_independent_of_band_order() {
    let bands = vec![
        band((0.0, 0.0), (D, 0.0), (102.0, 102.0), 7),
        band((D, 0.0), (2.0 * D, 0.0), (100.0, 100.0), NO_HOST),
        band((2.0 * D, 0.0), (3.0 * D, 0.0), (100.4, 100.4), NO_HOST),
    ];
    let a = stamped(&build(&bands), &bands);
    let mut turned = bands.clone();
    turned.reverse();
    let mut b = stamped(&build(&turned), &turned);
    b.reverse();
    for (x, y) in a.iter().zip(b.iter()) {
        assert_eq!(x.height_a, y.height_a);
        assert_eq!(x.height_b, y.height_b);
    }
}

#[test]
fn every_order_of_stubs_paths_and_pavements_is_stamped_alike() {
    let gap = 2.0 / DEG_M;
    let bands = vec![
        band((0.0, 0.0), (D, 0.0), (120.0, 120.0), 7),
        band((D + gap, 0.0), (2.0 * D, 0.0), (118.9, 118.5), NO_HOST),
        band((2.0 * D, 0.0), (3.0 * D, 0.0), (118.0, 117.5), NO_HOST),
        band((2.5 * D, 0.0), (2.5 * D, D), (118.2, 118.2), NO_HOST),
    ];
    let sources = [9u64, 0, 8, 5];
    let plain = stamped(&graph(&bands, &sources), &bands);
    assert_ne!(plain[1].height_a, um(118.9), "the fixture must move something");
    for order in [[3usize, 2, 1, 0], [1, 3, 0, 2], [2, 0, 3, 1]] {
        let turned: Vec<_> = order.iter().map(|i| bands[*i].clone()).collect();
        let from: Vec<u64> = order.iter().map(|i| sources[*i]).collect();
        let out = stamped(&graph(&turned, &from), &turned);
        for (k, i) in order.iter().enumerate() {
            assert_eq!((out[k].height_a, out[k].height_b), (plain[*i].height_a, plain[*i].height_b));
        }
    }
}

#[test]
fn a_stub_takes_the_hosted_seat_it_stands_short_of() {
    let gap = 2.0 / DEG_M;
    let bands = vec![
        band((0.0, 0.0), (D, 0.0), (120.0, 120.0), 7),
        band((D + gap, 0.0), (D + gap + 3.0 / DEG_M, 0.0), (118.9, 118.9), NO_HOST),
    ];
    let out = stamped(&graph(&bands, &[9, 0]), &bands);
    assert_eq!(out[1].height_a, um(120.0), "the stub's inner end takes the hosted seat");
    let out = stamped(&graph(&bands, &[9, 8]), &bands);
    assert_eq!(out[1].height_a, um(118.9), "a path 2 m short of a band keeps its own seat");
}

#[test]
fn a_pinned_joint_answers_height_near_and_a_free_one_does_not_answer_pinned() {
    let bands = vec![
        band((0.0, 0.0), (D, 0.0), (120.0, 120.0), 7),
        band((D, 0.0), (2.0 * D, 0.0), (119.0, 119.0), NO_HOST),
        band((3.0 * D, 0.0), (4.0 * D, 0.0), (100.0, 100.0), NO_HOST),
    ];
    let g = build(&bands);
    let eps = um(1.0) as u64;
    let joint = seen(&g, &bands, (D, 0.0));
    assert_eq!(g.height_near(&joint, eps), Some(um(120.0)));
    assert_eq!(g.pinned_height_near(&joint, eps), Some(um(120.0)), "hosted joint is a pin");
    let free_end = seen(&g, &bands, (3.0 * D, 0.0));
    assert_eq!(g.height_near(&free_end, eps), Some(um(100.0)));
    assert_eq!(g.pinned_height_near(&free_end, eps), None, "a free joint is no authority");
    assert_eq!(g.height_near(&seen(&g, &bands, (10.0 * D, 0.0)), eps), None);
}

#[test]
fn union_find_unions_toward_the_lower_root_whatever_the_order() {
    let mut a = UnionFind::new(4);
    a.union(3, 1);
    a.union(1, 2);
    let mut b = UnionFind::new(4);
    b.union(1, 2);
    b.union(3, 1);
    for i in 0..4 {
        assert_eq!(a.find(i), b.find(i));
    }
    assert_eq!(a.find(3), 1);
    assert_eq!(a.find(0), 0);
}

#[test]
fn an_end_on_another_band_stands_at_that_bands_seat() {
    // A free band ending on the middle of a hosted one, 1 m lower.
    let bands = vec![
        band((0.0, 0.0), (2.0 * D, 0.0), (120.0, 122.0), 7),
        band((D, 0.0), (D, D), (120.0, 120.0), NO_HOST),
    ];
    let g = build(&bands);
    assert_eq!(g.t_hosts, 1);
    assert_eq!(stamped(&g, &bands)[1].height_a, um(121.0));
}

#[test]
fn a_street_pins_the_connector_it_shares() {
    // Two ends 5 m apart that one mapped connector ties together, a metre
    // under a street that carries it too.
    let bands = vec![
        band((0.0, 0.0), (D, 0.0), (100.0, 100.0), NO_HOST),
        band((D + 5.0 / DEG_M, 0.0), (2.0 * D, 0.0), (100.0, 100.0), NO_HOST),
    ];
    let plain: Vec<Band> = bands.iter().map(|d| d.band).collect();
    let lines = [
        WalkLine { vertices: 2, connectors: vec![5], ends: vec![vec![1, 2]] },
        WalkLine { vertices: 2, connectors: vec![6], ends: vec![vec![3]] },
    ];
    let streets = [Street { connectors: vec![5], surface: Some(vec![um(101.0)]) }];
    let g = WalkGraph::build(&lines, &streets, &plain, &[1, 1], evidence(&bands), 0);
    assert_eq!((g.connector_unions, g.street_pins), (1, 1));
    let out = stamped(&g, &bands);
    assert_eq!((out[0].height_b, out[1].height_a), (um(101.0), um(101.0)));
}

#[test]
fn bands_off_the_ground_are_left_alone() {
    let mut bands = vec![
        band((0.0, 0.0), (D, 0.0), (120.0, 120.0), 7),
        band((D, 0.0), (2.0 * D, 0.0), (119.0, 119.0), NO_HOST),
    ];
    bands[1].band.level = 1;
    let plain: Vec<Band> = bands.iter().map(|d| d.band).collect();
    let none = Evidence {
        coincident: Vec::new(),
        seeds: vec![ConnectorSeed { ends: vec![], street: None }],
        standing: Vec::new(),
        stubs: Vec::new(),
    };
    let g = WalkGraph::build_inner(&plain, &[1, 1], &none, 0);
    assert_eq!(stamped(&g, &bands), plain);
    assert_eq!(g.height.len(), 2);
}

#[test]
fn ends_within_the_joint_reach_are_one_joint() {
    let pair = |a: u32, b: u32, distance: u64| EndPair { a, b, distance };
    let pairs = [pair(0, 2, 600_000), pair(0, 3, 600_001), pair(1, 1, 0), pair(3, 1, 0)];
    assert_eq!(joints(&pairs, 600_000), vec![(0, 2), (3, 1)]);
}

#[test]
fn a_free_end_stands_on_a_band_up_to_its_drawn_edge() {
    let bands: Vec<Band> = [
        band((0.0, 0.0), (D, 0.0), (1.0, 1.0), NO_HOST),
        band((0.0, D), (D, D), (2.0, 2.0), 7),
    ]
    .iter()
    .map(|d| d.band)
    .collect();
    let seen = |slot: u32, band: u32, distance: u64, to_a: u64| BandSeen {
        slot,
        band,
        distance,
        half: 1_000_000,
        height: 5,
        to_a,
        to_b: 9_000_000,
    };
    let all = [
        seen(0, 1, 1_000_000 + ON_UM, 9_000_000),
        seen(1, 1, 1_000_001 + ON_UM, 9_000_000),
        seen(1, 1, 0, 600_000),
        seen(1, 0, 0, 9_000_000),
        seen(2, 0, 0, 9_000_000),
    ];
    assert_eq!(standings(&bands, &all, 600_000), vec![Standing { slot: 0, band: 1, height: 5 }]);
}

#[test]
fn a_point_projects_onto_a_segment_with_its_parameter() {
    let (a, b) = ((0.0, 0.0), (0.001, 0.0));
    let (d, t) = to_segment((0.0005, 0.00001), a, b);
    assert!((t - 0.5).abs() < 1e-6);
    assert!((d - 0.00001 * DEG_M).abs() < 1e-6);
}

#[test]
fn a_point_past_an_end_is_nearest_to_that_end() {
    let at = |east: i64, north: i64| Offset { east, north };
    let foot = |distance: u64, along: u32| Foot { distance, along };
    assert_eq!(plane::to_segment(at(3, 4), at(9, 4)), foot(5, 0));
    assert_eq!(plane::to_segment(at(-9, 4), at(-3, 4)), foot(5, 1_000_000));
    assert_eq!(plane::to_segment(at(-6, 8), at(2, 8)), foot(8, 750_000));
    assert_eq!(plane::to_segment(at(3, 4), at(3, 4)), foot(5, 0), "no segment at all");
    assert_eq!(plane::isqrt(24), 4);
    assert_eq!(plane::isqrt(25), 5);
    assert_eq!(plane::length(at(300, -400)), 500);
}

#[test]
fn a_settled_graph_stamps_every_seat_back_as_it_was() {
    // Two free paths that meet at one height, a third that stands alone.
    let bands = vec![
        band((0.0, 0.0), (D, 0.0), (120.0, 119.5), NO_HOST),
        band((D, 0.0), (2.0 * D, 0.0), (119.5, 117.0), NO_HOST),
        band((0.0, 9.0 * D), (D, 9.0 * D), (101.0, 99.0), NO_HOST),
    ];
    let plain: Vec<Band> = bands.iter().map(|d| d.band).collect();
    assert_eq!(stamped(&build(&bands), &bands), plain);
}
